use syg::item::{ItemKind, Slot};
use syg::model::BindingResolution;
use syg::model::BindingResolution::{Failed, Fully, NotAttempted, Partially};

const ALL: [BindingResolution; 4] = [NotAttempted, Fully, Partially, Failed];

fn and(a: BindingResolution, b: BindingResolution) -> BindingResolution {
    let mut x = a;
    x.and(b);
    x
}

fn or(a: BindingResolution, b: BindingResolution) -> BindingResolution {
    let mut x = a;
    x.or(b);
    x
}

#[test]
fn and_takes_the_worse_verdict() {
    let table = [
        [NotAttempted, Fully, Partially, Failed],
        [Fully, Fully, Partially, Failed],
        [Partially, Partially, Partially, Failed],
        [Failed, Failed, Failed, Failed],
    ];
    for (i, a) in ALL.iter().enumerate() {
        for (j, b) in ALL.iter().enumerate() {
            assert_eq!(and(*a, *b), table[i][j], "{a:?} and {b:?}");
        }
    }
}

#[test]
fn or_takes_the_better_attempt() {
    let table = [
        [NotAttempted, Fully, Partially, Failed],
        [Fully, Fully, Fully, Fully],
        [Partially, Fully, Partially, Partially],
        [Failed, Fully, Partially, Failed],
    ];
    for (i, a) in ALL.iter().enumerate() {
        for (j, b) in ALL.iter().enumerate() {
            assert_eq!(or(*a, *b), table[i][j], "{a:?} or {b:?}");
        }
    }
}

#[test]
fn verdicts_combine_commutatively_and_associatively() {
    for a in ALL {
        assert_eq!(and(a, a), a);
        assert_eq!(or(a, a), a);
        for b in ALL {
            assert_eq!(and(a, b), and(b, a));
            assert_eq!(or(a, b), or(b, a));
            for c in ALL {
                assert_eq!(and(and(a, b), c), and(a, and(b, c)));
                assert_eq!(or(or(a, b), c), or(a, or(b, c)));
            }
        }
    }
}

#[test]
fn default_verdict_is_not_attempted() {
    assert_eq!(BindingResolution::default(), NotAttempted);
}

#[test]
fn kinds_bind_in_their_namespace() {
    for kind in [
        ItemKind::Struct,
        ItemKind::Enum,
        ItemKind::Union,
        ItemKind::Trait,
        ItemKind::TraitAlias,
        ItemKind::Type,
    ] {
        assert_eq!(kind.slot(), Some(Slot::Type));
    }
    for kind in [ItemKind::Fn, ItemKind::Const, ItemKind::Static] {
        assert_eq!(kind.slot(), Some(Slot::Value));
    }
    for kind in [
        ItemKind::ExternCrate,
        ItemKind::ForeignMod,
        ItemKind::Impl,
        ItemKind::Macro,
        ItemKind::Mod,
        ItemKind::Use,
    ] {
        assert_eq!(kind.slot(), None);
    }
}
