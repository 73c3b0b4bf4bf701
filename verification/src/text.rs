//! Small helpers on texts: joining segments of file paths and of names.

use vstd::prelude::*;
use vstd::string::*;

verus! {

/// The characters of a text, in order.
pub fn collect_chars(s: &str) -> (r: Vec<char>)
    ensures
        r@ == s@,
{
    let mut out: Vec<char> = Vec::new();
    for c in it: s.chars()
        invariant
            it.seq() == s@,
            out@ == s@.subrange(0, it.index() as int),
    {
        out.push(c);
    }
    out
}

/// The text `s` with every dash replaced by an underscore.
pub open spec fn dashes_replaced(s: Seq<char>) -> Seq<char> {
    s.map_values(|c: char| if c == '-' {
        '_'
    } else {
        c
    })
}

/// The name of the module that a crate named `name` makes: the name with
/// every dash replaced by an underscore.
pub fn module_name(name: &str) -> (r: String)
    ensures
        r@ == dashes_replaced(name@),
{
    proof {
        reveal_strlit("_");
    }
    let chars = collect_chars(name);
    let ghost s = name@;
    let n = chars.len();
    let mut out = String::new();
    let mut start: usize = 0;
    let mut i: usize = 0;
    while i < n
        invariant
            chars@ == s,
            s == name@,
            n == s.len(),
            0 <= start <= i <= n,
            "_"@ == seq!['_'],
            forall|j: int| start <= j < i ==> s[j] != '-',
            out@ + s.subrange(start as int, i as int) == dashes_replaced(s.subrange(0, i as int)),
        decreases n - i,
    {
        let ghost before = out@;
        proof {
            let head = s.subrange(0, i as int);
            assert(s.subrange(0, i + 1) =~= head.push(s[i as int]));
            assert(dashes_replaced(head.push(s[i as int])) =~= dashes_replaced(head).push(
                if s[i as int] == '-' {
                    '_'
                } else {
                    s[i as int]
                },
            ));
            assert(s.subrange(start as int, i + 1) =~= s.subrange(start as int, i as int).push(
                s[i as int],
            ));
        }
        if chars[i] == '-' {
            let piece = name.substring_char(start, i);
            out.append(piece);
            out.append("_");
            assert(out@ + s.subrange(i + 1, i + 1) =~= (before + s.subrange(
                start as int,
                i as int,
            )).push('_'));
            start = i + 1;
        } else {
            assert(out@ + s.subrange(start as int, i + 1) =~= (before + s.subrange(
                start as int,
                i as int,
            )).push(s[i as int]));
        }
        i += 1;
    }
    let piece = name.substring_char(start, n);
    out.append(piece);
    assert(s.subrange(0, n as int) =~= s);
    out
}

/// The characters of the texts of `parts`, each text with `sep` in front.
pub open spec fn prefixed_each(parts: Seq<Seq<char>>, sep: Seq<char>) -> Seq<char>
    decreases parts.len(),
{
    if parts.len() == 0 {
        Seq::empty()
    } else {
        prefixed_each(parts.drop_last(), sep) + sep + parts.last()
    }
}

/// `base`, a slash, and `segment`.
pub fn add_file_segment(base: &str, segment: &str) -> (r: String)
    ensures
        r@ == base@ + seq!['/'] + segment@,
{
    proof {
        reveal_strlit("/");
    }
    let mut out = base.to_owned();
    out.append("/");
    out.append(segment);
    out
}

/// `base` followed by `s`.
pub fn concat(base: &str, s: &str) -> (r: String)
    ensures
        r@ == base@ + s@,
{
    let mut out = base.to_owned();
    out.append(s);
    out
}

/// `base`, the separator of qualified names, and `segment`.
pub fn add_rust_segment(base: &str, segment: &str) -> (r: String)
    ensures
        r@ == base@ + seq![':', ':'] + segment@,
{
    proof {
        reveal_strlit("::");
    }
    let mut out = base.to_owned();
    out.append("::");
    out.append(segment);
    out
}

/// The directory in which the files of the modules nested in the module
/// `mod_stack` of a crate lie: the source directory of the crate, then a
/// directory for every module below the crate's own, and a closing slash.
pub open spec fn module_dir_of(crate_src: Seq<char>, mod_stack: Seq<Seq<char>>) -> Seq<char> {
    if mod_stack.len() <= 1 {
        crate_src + seq!['/']
    } else {
        crate_src + prefixed_each(mod_stack.skip(1), seq!['/']) + seq!['/']
    }
}

/// The directory in which the files of the modules nested in the module
/// `mod_stack` of a crate lie.
pub fn module_dir(crate_src: &str, mod_stack: &[String]) -> (r: String)
    ensures
        r@ == module_dir_of(crate_src@, crate::global_ident::string_views(mod_stack@)),
{
    proof {
        reveal_strlit("/");
    }
    let ghost mods = crate::global_ident::string_views(mod_stack@);
    let mut out = crate_src.to_owned();
    let mut i: usize = 1;
    if mod_stack.len() <= 1 {
        out.append("/");
        return out;
    }
    while i < mod_stack.len()
        invariant
            1 <= i <= mod_stack.len(),
            mods == crate::global_ident::string_views(mod_stack@),
            "/"@ == seq!['/'],
            out@ == crate_src@ + prefixed_each(mods.subrange(1, i as int), seq!['/']),
        decreases mod_stack.len() - i,
    {
        proof {
            let next = mods.subrange(1, i + 1);
            assert(next.drop_last() =~= mods.subrange(1, i as int));
        }
        out.append("/");
        out.append(mod_stack[i].as_str());
        i += 1;
    }
    out.append("/");
    out
}

/// The two files in which the module `name` may lie, given the directory
/// of its parent: as a directory with a `mod.rs`, and as a file of its
/// own.
pub fn module_file_candidates(dir: &str, name: &str) -> (r: (String, String))
    ensures
        r.0@ == dir@ + name@ + "/mod.rs"@,
        r.1@ == dir@ + name@ + ".rs"@,
{
    let mut dir_based = dir.to_owned();
    dir_based.append(name);
    dir_based.append("/mod.rs");
    let mut file_based = dir.to_owned();
    file_based.append(name);
    file_based.append(".rs");
    (dir_based, file_based)
}

/// The file in which a module lies: the one that the module names
/// itself, if it names one; else its directory's `mod.rs`, if that is
/// there; else the file of its own.
pub fn module_file(
    explicit: Option<String>,
    dir_based_exists: bool,
    dir_based: String,
    file_based: String,
) -> (r: String)
    ensures
        r == (match explicit {
            Some(path) => path,
            None => if dir_based_exists {
                dir_based
            } else {
                file_based
            },
        }),
{
    match explicit {
        Some(path) => path,
        None => if dir_based_exists {
            dir_based
        } else {
            file_based
        },
    }
}

/// Takes the next number from a counter.
pub fn get_and_inc(counter: &mut usize) -> (r: usize)
    requires
        *old(counter) < usize::MAX,
    ensures
        r == *old(counter),
        *final(counter) == *old(counter) + 1,
{
    let v = *counter;
    *counter = v + 1;
    v
}

} // verus!
