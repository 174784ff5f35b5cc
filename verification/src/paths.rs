//! Where a file's declarations are framed: the part of its path under the
//! crate's source root, and the modules that path names.

use vstd::prelude::*;

verus! {

/// A segment starts at `k`: at the start of the path or just past a `/`.
pub open spec fn segment_starts(s: Seq<char>, k: int) -> bool {
    k == 0 || (0 < k <= s.len() && s[k - 1] == '/')
}

/// The run `s[k..k + word.len()]` is `word`.
pub open spec fn run_is(s: Seq<char>, k: int, word: Seq<char>) -> bool {
    0 <= k && k + word.len() <= s.len() && s.subrange(k, k + word.len()) == word
}

/// The segment ending at `e` (exclusive) is a whole segment spelled `word`.
pub open spec fn segment_before_is(s: Seq<char>, e: int, word: Seq<char>) -> bool {
    e >= word.len() && segment_starts(s, e - word.len()) && run_is(s, e - word.len(), word)
}

pub open spec fn src_word() -> Seq<char> { seq!['s', 'r', 'c'] }
pub open spec fn tests_word() -> Seq<char> { seq!['t', 'e', 's', 't', 's'] }
pub open spec fn benches_word() -> Seq<char> { seq!['b', 'e', 'n', 'c', 'h', 'e', 's'] }
pub open spec fn examples_word() -> Seq<char> { seq!['e', 'x', 'a', 'm', 'p', 'l', 'e', 's'] }

/// The segment ending at `e` is `src`, the crate's source root.
pub open spec fn src_before(s: Seq<char>, e: int) -> bool {
    segment_before_is(s, e, src_word())
}

/// The segment ending at `e` is one of the other target roots cargo knows:
/// `tests`, `benches` or `examples`.
pub open spec fn target_before(s: Seq<char>, e: int) -> bool {
    ||| segment_before_is(s, e, tests_word())
    ||| segment_before_is(s, e, benches_word())
    ||| segment_before_is(s, e, examples_word())
}

/// `j` sits just past the `/` that closes a root segment (`src` where `src`
/// is asked for, another target root otherwise), so the path below that
/// root starts at `j`.
pub open spec fn is_cut(s: Seq<char>, j: int, src: bool) -> bool {
    0 < j <= s.len() && s[j - 1] == '/' && if src { src_before(s, j - 1) } else { target_before(s, j - 1) }
}

/// The last cut of the asked kind at or before `j`, or -1 where there is
/// none.
pub open spec fn last_cut(s: Seq<char>, j: int, src: bool) -> int
    decreases j,
{
    if j <= 0 {
        -1
    } else if is_cut(s, j, src) {
        j
    } else {
        last_cut(s, j - 1, src)
    }
}

/// The last `/` strictly before `j`, or -1 where there is none.
pub open spec fn last_slash(s: Seq<char>, j: int) -> int
    decreases j,
{
    if j <= 0 {
        -1
    } else if s[j - 1] == '/' {
        j - 1
    } else {
        last_slash(s, j - 1)
    }
}

/// The first `/` in `s`, or -1 where there is none.
pub open spec fn first_slash(s: Seq<char>) -> int
    decreases s.len(),
{
    if s.len() == 0 {
        -1
    } else if s[0] == '/' {
        0
    } else {
        let r = first_slash(s.drop_first());
        if r < 0 { -1 } else { r + 1 }
    }
}

/// Where the part of a path below its crate's source root begins: past the
/// last `src/` segment that has something after it, wherever in the
/// workspace the crate sits; a path with no `src` root is read below its
/// last `tests/`, `benches/` or `examples/` segment; a path with neither
/// keeps its last segment.
pub open spec fn rest_start(s: Seq<char>) -> int {
    if last_cut(s, s.len() as int, true) >= 0 {
        last_cut(s, s.len() as int, true)
    } else if last_cut(s, s.len() as int, false) >= 0 {
        last_cut(s, s.len() as int, false)
    } else {
        last_slash(s, s.len() as int) + 1
    }
}

pub open spec fn spec_source_rest(s: Seq<char>) -> Seq<char> {
    s.skip(rest_start(s))
}

pub open spec fn rs_word() -> Seq<char> { seq!['.', 'r', 's'] }

/// A file name without its `.rs`.
pub open spec fn stem(rest: Seq<char>) -> Seq<char> {
    if rest.len() >= 3 && rest.subrange(rest.len() - 3, rest.len() as int) == rs_word() {
        rest.take(rest.len() - 3)
    } else {
        rest
    }
}

/// A crate root or a build script: a file that frames in its crate.
pub open spec fn is_root_file(stem: Seq<char>) -> bool {
    ||| stem == seq!['m', 'a', 'i', 'n']
    ||| stem == seq!['l', 'i', 'b']
    ||| stem == seq!['m', 'o', 'd']
    ||| stem == seq!['b', 'u', 'i', 'l', 'd']
}

/// The top-level module a file's types are framed in: the first segment of
/// the path below the source root, or the file's own stem when it sits right
/// under the root — none for a crate root.
pub open spec fn spec_module_of(s: Seq<char>) -> Option<Seq<char>> {
    let rest = spec_source_rest(s);
    if first_slash(rest) >= 0 {
        Some(rest.take(first_slash(rest)))
    } else if is_root_file(stem(rest)) {
        None
    } else {
        Some(stem(rest))
    }
}

pub proof fn lemma_first_slash_bound(s: Seq<char>)
    ensures
        -1 <= first_slash(s) < s.len(),
        first_slash(s) >= 0 ==> s[first_slash(s)] == '/',
        forall|i: int| 0 <= i < s.len() && (first_slash(s) < 0 || i < first_slash(s)) ==> s[i] != '/',
    decreases s.len(),
{
    if s.len() > 0 && s[0] != '/' {
        lemma_first_slash_bound(s.drop_first());
        assert forall|i: int| 0 <= i < s.len() && (first_slash(s) < 0 || i < first_slash(s)) implies s[i] != '/' by {
            if i > 0 {
                assert(s[i] == s.drop_first()[i - 1]);
            }
        }
    }
}

/// The segments of `s` between its slashes.
pub open spec fn split_slash(s: Seq<char>) -> Seq<Seq<char>>
    decreases s.len(),
{
    proof {
        lemma_first_slash_bound(s);
    }
    if first_slash(s) < 0 {
        seq![s]
    } else {
        seq![s.take(first_slash(s))] + split_slash(s.skip(first_slash(s) + 1))
    }
}

/// The module path a file is read at: the directories between the source
/// root and the file.
pub open spec fn spec_module_segments(s: Seq<char>) -> Seq<Seq<char>> {
    split_slash(spec_source_rest(s)).drop_last()
}

/// The characters of a string, one by one.
pub fn chars_of(s: &str) -> (v: Vec<char>)
    ensures
        v@ == s@,
{
    let n = s.unicode_len();
    let mut v: Vec<char> = Vec::new();
    let mut i: usize = 0;
    while i < n
        invariant
            n == s@.len(),
            i <= n,
            v@ == s@.take(i as int),
        decreases n - i,
    {
        v.push(s.get_char(i));
        i = i + 1;
        assert(v@ =~= s@.take(i as int));
    }
    assert(v@ =~= s@);
    v
}

/// Whether `v[k..k + word.len()]` spells `word`.
pub(crate) fn run_matches(v: &Vec<char>, k: usize, word: &[char]) -> (b: bool)
    ensures
        b == run_is(v@, k as int, word@),
{
    if k > v.len() || word.len() > v.len() - k {
        return false;
    }
    let mut i: usize = 0;
    while i < word.len()
        invariant
            k + word@.len() <= v@.len(),
            k + word.len() <= v.len(),
            i <= word@.len(),
            v@.subrange(k as int, k + i) == word@.take(i as int),
        decreases word.len() - i,
    {
        if v[k + i] != word[i] {
            assert(v@.subrange(k as int, k + word@.len())[i as int] != word@[i as int]);
            return false;
        }
        i = i + 1;
        assert(v@.subrange(k as int, k + i) =~= word@.take(i as int));
    }
    assert(word@.take(word@.len() as int) =~= word@);
    true
}

fn segment_before_matches(v: &Vec<char>, e: usize, word: &[char]) -> (b: bool)
    requires
        e <= v@.len(),
    ensures
        b == segment_before_is(v@, e as int, word@),
{
    if e < word.len() {
        return false;
    }
    let k = e - word.len();
    let starts = k == 0 || v[k - 1] == '/';
    starts && run_matches(v, k, word)
}

fn src_before_at(v: &Vec<char>, e: usize) -> (b: bool)
    requires
        e <= v@.len(),
    ensures
        b == src_before(v@, e as int),
{
    let src = ['s', 'r', 'c'];
    assert(src@ =~= src_word());
    segment_before_matches(v, e, src.as_slice())
}

fn target_before_at(v: &Vec<char>, e: usize) -> (b: bool)
    requires
        e <= v@.len(),
    ensures
        b == target_before(v@, e as int),
{
    let tests = ['t', 'e', 's', 't', 's'];
    let benches = ['b', 'e', 'n', 'c', 'h', 'e', 's'];
    let examples = ['e', 'x', 'a', 'm', 'p', 'l', 'e', 's'];
    assert(tests@ =~= tests_word());
    assert(benches@ =~= benches_word());
    assert(examples@ =~= examples_word());
    segment_before_matches(v, e, tests.as_slice()) || segment_before_matches(v, e, benches.as_slice())
        || segment_before_matches(v, e, examples.as_slice())
}

/// Where the part of the path below the source root starts, in characters.
fn rest_start_of(v: &Vec<char>) -> (r: usize)
    ensures
        r as int == rest_start(v@),
        r <= v@.len(),
{
    let n = v.len();
    let mut cut: Option<usize> = None;
    let mut other: Option<usize> = None;
    let mut slash: Option<usize> = None;
    let mut j: usize = 0;
    while j < n
        invariant
            n == v@.len(),
            0 <= j <= n,
            match cut {
                Some(c) => c as int == last_cut(v@, j as int, true) && 1 <= c <= j,
                None => last_cut(v@, j as int, true) == -1,
            },
            match other {
                Some(c) => c as int == last_cut(v@, j as int, false) && 1 <= c <= j,
                None => last_cut(v@, j as int, false) == -1,
            },
            match slash {
                Some(c) => c as int == last_slash(v@, j as int) && c < j,
                None => last_slash(v@, j as int) == -1,
            },
        decreases n - j,
    {
        if v[j] == '/' {
            slash = Some(j);
            if src_before_at(v, j) {
                cut = Some(j + 1);
            }
            if target_before_at(v, j) {
                other = Some(j + 1);
            }
        }
        j = j + 1;
    }
    match cut {
        Some(c) => c,
        None => match other {
            Some(c) => c,
            None => match slash {
                Some(s) => s + 1,
                None => 0,
            },
        },
    }
}

/// The part of a path below the crate's source root: `src/views/star.rs` is
/// `views/star.rs`, wherever in the workspace the crate itself sits. A path
/// with no source root of its own keeps its last segment.
pub fn source_rest(path: &str) -> (rest: &str)
    ensures
        rest@ == spec_source_rest(path@),
{
    let v = chars_of(path);
    let start = rest_start_of(&v);
    path.substring_char(start, v.len())
}

fn first_slash_from(v: &Vec<char>, start: usize) -> (r: Option<usize>)
    requires
        start <= v@.len(),
    ensures
        match r {
            Some(i) => start <= i < v@.len() && first_slash(v@.skip(start as int)) == i - start,
            None => first_slash(v@.skip(start as int)) == -1,
        },
{
    let mut i = v.len();
    let mut found: Option<usize> = None;
    while i > start
        invariant
            start <= i <= v@.len(),
            match found {
                Some(f) => i <= f < v@.len() && first_slash(v@.skip(i as int)) == f - i,
                None => first_slash(v@.skip(i as int)) == -1,
            },
        decreases i - start,
    {
        let ghost old_i = i;
        i = i - 1;
        assert(v@.skip(i as int).drop_first() =~= v@.skip(old_i as int));
        if v[i] == '/' {
            found = Some(i);
        }
    }
    found
}

/// The top-level module a file's types are framed in — the first path segment
/// under the crate's source root, which is how rust names the module.
/// `src/views/codemap/map.rs` is `mod views`; `src/api.rs` is `mod api`; the
/// crate root itself (`main.rs`, `lib.rs`) has no module and frames in the
/// crate.
pub fn module_of(path: &str) -> (m: Option<&str>)
    ensures
        match m {
            Some(seg) => spec_module_of(path@) == Some(seg@),
            None => spec_module_of(path@) is None,
        },
{
    let v = chars_of(path);
    let start = rest_start_of(&v);
    let ghost rest = v@.skip(start as int);
    match first_slash_from(&v, start) {
        Some(i) => {
            assert(rest.take(i - start) =~= path@.subrange(start as int, i as int));
            return Some(path.substring_char(start, i));
        },
        None => {},
    }
    let n = v.len();
    let rs = ['.', 'r', 's'];
    assert(rs@ =~= rs_word());
    let end = if n - start >= 3 && run_matches(&v, n - 3, rs.as_slice()) {
        assert(rest.subrange(rest.len() - 3, rest.len() as int) =~= v@.subrange(n - 3, n as int));
        n - 3
    } else {
        assert(n - start >= 3 ==> rest.subrange(rest.len() - 3, rest.len() as int)
            =~= v@.subrange(n - 3, n as int));
        n
    };
    assert(stem(rest) =~= v@.subrange(start as int, end as int));
    let main = ['m', 'a', 'i', 'n'];
    let lib = ['l', 'i', 'b'];
    let md = ['m', 'o', 'd'];
    let build = ['b', 'u', 'i', 'l', 'd'];
    assert(main@ =~= seq!['m', 'a', 'i', 'n']);
    assert(lib@ =~= seq!['l', 'i', 'b']);
    assert(md@ =~= seq!['m', 'o', 'd']);
    assert(build@ =~= seq!['b', 'u', 'i', 'l', 'd']);
    let len = end - start;
    let is_root = (len == main.len() && run_matches(&v, start, main.as_slice())) || (len
        == lib.len() && run_matches(&v, start, lib.as_slice())) || (len == md.len()
        && run_matches(&v, start, md.as_slice())) || (len == build.len() && run_matches(
        &v,
        start,
        build.as_slice(),
    ));
    proof {
        let st = stem(rest);
        assert(st.len() == len);
        assert(len == 4 ==> (run_is(v@, start as int, main@) <==> st == main@));
        assert(len == 3 ==> (run_is(v@, start as int, lib@) <==> st == lib@));
        assert(len == 3 ==> (run_is(v@, start as int, md@) <==> st == md@));
        assert(len == 5 ==> (run_is(v@, start as int, build@) <==> st == build@));
    }
    if is_root {
        None
    } else {
        Some(path.substring_char(start, end))
    }
}


/// The strings' characters.
pub open spec fn views(v: Seq<String>) -> Seq<Seq<char>> {
    v.map_values(|s: String| s@)
}

/// The module path a file is read at, segment by segment: the directories
/// between the crate's source root and the file. `src/views/func/model.rs`
/// is read at `views::func`; a crate root is read at the crate itself.
pub fn module_segments(path: &str) -> (segs: Vec<String>)
    ensures
        views(segs@) == spec_module_segments(path@),
{
    let v = chars_of(path);
    let start = rest_start_of(&v);
    let ghost rest = v@.skip(start as int);
    assert(rest == spec_source_rest(path@));
    let mut out: Vec<String> = Vec::new();
    let mut at = start;
    assert(v@.skip(at as int) =~= rest);
    loop
        invariant
            start <= at <= v@.len(),
            v@ == path@,
            rest == v@.skip(start as int),
            rest == spec_source_rest(path@),
            v.len() == v@.len(),
            split_slash(rest) == views(out@) + split_slash(v@.skip(at as int)),
        decreases v@.len() - at,
    {
        match first_slash_from(&v, at) {
            Some(i) => {
                let ghost tail = v@.skip(at as int);
                assert(tail.take(i - at) =~= v@.subrange(at as int, i as int));
                assert(tail.skip(i - at + 1) =~= v@.skip(i + 1));
                let seg = path.substring_char(at, i);
                let ghost before = views(out@);
                out.push(seg.to_string());
                assert(views(out@) =~= before.push(seg@));
                assert(split_slash(tail) == seq![tail.take(first_slash(tail))] + split_slash(
                    tail.skip(first_slash(tail) + 1),
                ));
                assert(split_slash(rest) =~= views(out@) + split_slash(v@.skip(i + 1)));
                at = i + 1;
            },
            None => {
                let ghost tail = v@.skip(at as int);
                assert(split_slash(tail) == seq![tail]);
                assert((views(out@) + seq![tail]).drop_last() =~= views(out@));
                assert(split_slash(rest) == views(out@) + seq![tail]);
                return out;
            },
        }
    }
}

} // verus!
