//! Choosing the locale directory among candidate paths.
use vstd::prelude::*;

verus! {

/// `base` joined with the relative path `rel`.
pub open spec fn join_path(base: Seq<char>, rel: Seq<char>) -> Seq<char> {
    base + seq!['/'] + rel
}

/// The candidate locale directories, highest priority first: an explicit path;
/// then, beside the running executable, the layouts of a build tree and of a
/// packaged application bundle; then, under the working directory, the layouts
/// used during development.
pub open spec fn candidates(
    explicit: Option<Seq<char>>,
    exe_dir: Option<Seq<char>>,
    cwd: Option<Seq<char>>,
) -> Seq<Seq<char>> {
    let a = match explicit {
        Some(p) => seq![p],
        None => Seq::empty(),
    };
    let b = match exe_dir {
        Some(d) => seq![
            join_path(d, "../locales"@),
            join_path(d, "../../locales"@),
            join_path(d, "../../../../Bundle/Resources/locales"@),
        ],
        None => Seq::empty(),
    };
    let c = match cwd {
        Some(d) => seq![join_path(d, "locales"@), join_path(d, "src-tauri/locales"@)],
        None => Seq::empty(),
    };
    a + b + c
}

fn join(base: &String, rel: &str) -> (r: String)
    ensures
        r@ == join_path(base@, rel@),
{
    let mut r = base.clone();
    let sep = "/";
    proof {
        reveal_strlit("/");
    }
    r.append(sep);
    r.append(rel);
    r
}

/// The candidate locale directories in priority order, as `candidates` lists
/// them.
pub fn candidate_dirs(explicit: Option<String>, exe_dir: Option<String>, cwd: Option<String>) -> (r: Vec<String>)
    ensures
        r@.map_values(|s: String| s@) == candidates(
            match explicit { Some(p) => Some(p@), None => None },
            match exe_dir { Some(p) => Some(p@), None => None },
            match cwd { Some(p) => Some(p@), None => None },
        ),
{
    let mut r: Vec<String> = Vec::new();
    if let Some(p) = explicit {
        r.push(p);
    }
    if let Some(d) = &exe_dir {
        r.push(join(d, "../locales"));
        r.push(join(d, "../../locales"));
        r.push(join(d, "../../../../Bundle/Resources/locales"));
    }
    if let Some(d) = &cwd {
        r.push(join(d, "locales"));
        r.push(join(d, "src-tauri/locales"));
    }
    assert(r@.map_values(|s: String| s@) =~= candidates(
        match explicit { Some(p) => Some(p@), None => None },
        match exe_dir { Some(p) => Some(p@), None => None },
        match cwd { Some(p) => Some(p@), None => None },
    ));
    r
}

/// Is `i` the first index of `is_dir` that holds `true`?
pub open spec fn is_first_dir(is_dir: Seq<bool>, i: int) -> bool {
    &&& 0 <= i < is_dir.len()
    &&& is_dir[i]
    &&& forall|j: int| 0 <= j < i ==> !is_dir[j]
}

/// Given, for each candidate path in priority order, whether it exists and is a
/// directory, returns the position of the first one that does, or `None` when no
/// candidate qualifies (a normal outcome: the store then starts empty).
pub fn first_directory(is_dir: &Vec<bool>) -> (r: Option<usize>)
    ensures
        match r {
            Some(i) => is_first_dir(is_dir@, i as int),
            None => forall|j: int| 0 <= j < is_dir@.len() ==> !is_dir@[j],
        },
{
    let mut i: usize = 0;
    while i < is_dir.len()
        invariant
            i <= is_dir@.len(),
            forall|j: int| 0 <= j < i ==> !is_dir@[j],
        decreases is_dir@.len() - i,
    {
        if is_dir[i] {
            return Some(i);
        }
        i = i + 1;
    }
    None
}

/// The locale that a file named `name` holds, where its extension is `ext`: the
/// name without `.ext`. A file with another extension, or with nothing before
/// the extension, holds no locale.
pub open spec fn locale_of_file(name: Seq<char>, ext: Seq<char>) -> Option<Seq<char>> {
    let n = name.len();
    let m = ext.len() + 1;
    if n > m && name.subrange(n - m, n as int) == seq!['.'] + ext {
        Some(name.subrange(0, n - m))
    } else {
        None
    }
}

/// The locale identifier of the file `name` in a directory of locale files with
/// extension `ext`, as `locale_of_file` gives it.
pub fn locale_id_of(name: &String, ext: &String) -> (r: Option<String>)
    ensures
        match r {
            Some(id) => locale_of_file(name@, ext@) == Some(id@),
            None => locale_of_file(name@, ext@) is None,
        },
{
    let n = name.unicode_len();
    let e = ext.unicode_len();
    if e >= n || n - e - 1 == 0 {
        return None;
    }
    let ghost suffix = seq!['.'] + ext@;
    let start = n - e - 1;
    if name.get_char(start) != '.' {
        assert(name@.subrange(start as int, n as int)[0] != suffix[0]);
        return None;
    }
    let mut j: usize = 0;
    while j < e
        invariant
            n == name@.len(),
            e == ext@.len(),
            start + e + 1 == n,
            suffix == seq!['.'] + ext@,
            name@[start as int] == '.',
            j <= e,
            forall|k: int| 0 <= k < j ==> name@[start + 1 + k] == ext@[k],
        decreases e - j,
    {
        if name.get_char(start + 1 + j) != ext.get_char(j) {
            assert(name@.subrange(start as int, n as int)[1 + j] != suffix[1 + j]);
            return None;
        }
        j = j + 1;
    }
    assert(name@.subrange(start as int, n as int) =~= suffix);
    Some(String::from_str(name.substring_char(0, start)))
}

} // verus!
