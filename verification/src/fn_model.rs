//! What the function chart reads out of the survey: the declarations that
//! run, drawn in the household they are written in.
//!
//! A method belongs to the type or trait whose impl block declares it, and a
//! free declaration to its module. So the ground is a household: a crate
//! frame, module frames nested as rust's modules nest, and inside a module
//! one container per owner that declares methods. Two families of ink run
//! between the marks: calls, and contracts (a trait's clause and the methods
//! that answer it).

use std::collections::HashMap;

use vstd::prelude::*;

use crate::fn_reading::{owner_fold, FoldAt, FoldView};
use crate::kinds::{spec_plural, plural, Delta, ItemKind, Vis};
use crate::paths::{chars_of, module_segments, run_is, run_matches, spec_module_segments, views};
use crate::survey::MethodRow;
use crate::text::{decimal, decimal_string, push_decimal};

verus! {

/// One box on the paper: a declaration's own block, an owner container, or
/// a module frame. Wires tie to these rather than to marks, because a fold
/// takes marks off the paper and the box that folded stands for them.
#[derive(Clone, Copy, PartialEq, Eq, Structural, Hash, Debug, PartialOrd, Ord)]
pub enum Spot {
    /// One declaration's block, by its mark id.
    Mark(u32),
    /// One owner container, by its index in [`FnModel::owners`].
    Owner(u32),
    /// One crate or module frame, by its index in [`FnModel::frames`].
    Frame(u32),
}

/// Where a mark stands in the running order.
#[derive(Clone, Copy, PartialEq, Eq, Structural, Debug)]
pub enum Tier {
    /// Nothing in the workspace calls it: a chain of running starts here.
    Entry,
    /// This many calls from the nearest entry point, by the shortest way in.
    Deep(u32),
    /// In a ring of calls no entry point reaches.
    Ring,
}

pub open spec fn spec_band(t: Tier, deepest: nat) -> nat {
    match t {
        Tier::Entry => 0,
        Tier::Deep(n) => n as nat,
        Tier::Ring => deepest + 1,
    }
}

pub open spec fn spec_caption(t: Tier) -> Seq<char> {
    match t {
        Tier::Entry => "entry"@,
        Tier::Deep(n) => if n == 1 { "1 call deep"@ } else { decimal(n as nat) + " calls deep"@ },
        Tier::Ring => "in a call ring"@,
    }
}

pub open spec fn spec_tier_words(t: Tier) -> Seq<char> {
    match t {
        Tier::Entry => "an entry point \u{2014} nothing in the workspace calls it"@,
        Tier::Deep(n) => if n == 1 {
            "1 call from an entry point"@
        } else {
            decimal(n as nat) + " calls from an entry point"@
        },
        Tier::Ring => "in a call ring \u{2014} no entry point reaches it"@,
    }
}

impl Tier {
    /// The band this mark sits in: entries first, then one band per depth,
    /// with the unreached ring last.
    pub fn band(self, deepest: u32) -> (b: u32)
        requires
            deepest < u32::MAX,
        ensures
            b as nat == spec_band(self, deepest as nat),
    {
        match self {
            Tier::Entry => 0,
            Tier::Deep(n) => n,
            Tier::Ring => deepest + 1,
        }
    }

    /// The band's own caption.
    pub fn caption(self) -> (s: String)
        ensures
            s@ == spec_caption(self),
    {
        proof {
            reveal_strlit("entry");
            reveal_strlit("1 call deep");
            reveal_strlit(" calls deep");
            reveal_strlit("in a call ring");
        }
        match self {
            Tier::Entry => String::from_str("entry"),
            Tier::Deep(n) => {
                if n == 1 {
                    String::from_str("1 call deep")
                } else {
                    let mut s = decimal_string(n as u64);
                    s.append(" calls deep");
                    s
                }
            },
            Tier::Ring => String::from_str("in a call ring"),
        }
    }

    /// What the mark's own hover words say about where it stands.
    pub fn words(self) -> (s: String)
        ensures
            s@ == spec_tier_words(self),
    {
        proof {
            reveal_strlit("an entry point \u{2014} nothing in the workspace calls it");
            reveal_strlit("1 call from an entry point");
            reveal_strlit(" calls from an entry point");
            reveal_strlit("in a call ring \u{2014} no entry point reaches it");
        }
        match self {
            Tier::Entry => String::from_str("an entry point \u{2014} nothing in the workspace calls it"),
            Tier::Deep(n) => {
                if n == 1 {
                    String::from_str("1 call from an entry point")
                } else {
                    let mut s = decimal_string(n as u64);
                    s.append(" calls from an entry point");
                    s
                }
            },
            Tier::Ring => String::from_str("in a call ring \u{2014} no entry point reaches it"),
        }
    }
}

/// What kind of ink runs between two marks.
#[derive(Clone, Copy, PartialEq, Eq, Structural, Debug)]
pub enum CallKind {
    /// One body names the other: a call, or a function taken as a value.
    Call,
    /// A trait's method clause, and the method that answers it.
    Answers,
}

/// One drawn relation, from the end leaned on to the end that leans.
#[derive(Clone, Copy, PartialEq, Eq, Structural, Debug)]
pub struct Call {
    /// The callee, or the trait's clause.
    pub def: u32,
    /// The caller, or the method that answers.
    pub user: u32,
    pub kind: CallKind,
    /// References the survey resolved for this pair; a contract has none.
    pub count: u32,
}

/// One row of a function's quoted signature: a receiver, a parameter, or
/// the return.
#[derive(Clone, PartialEq, Debug)]
pub struct SigRow {
    /// The binding as written, the whole receiver where it is one, and
    /// empty for the return.
    pub name: String,
    /// The declared type as written; empty on a receiver.
    pub ty: String,
    /// The arrow in front of the return type.
    pub returns: bool,
    /// Whether the diff added this row since the base.
    pub added: bool,
}

pub open spec fn spec_written(name: Seq<char>, ty: Seq<char>) -> Seq<char> {
    if ty.len() == 0 { name } else { name + ": "@ + ty }
}

impl SigRow {
    /// The row as a block draws it: `graph: &CodeGraph`, or a receiver alone.
    pub fn written(&self) -> (s: String)
        ensures
            s@ == spec_written(self.name@, self.ty@),
    {
        proof {
            reveal_strlit(": ");
        }
        if self.ty.unicode_len() == 0 {
            self.name.clone()
        } else {
            let mut s = self.name.clone();
            s.append(": ");
            s.append(self.ty.as_str());
            s
        }
    }
}

/// What a declaration's head says, and where a reader goes to read it.
#[derive(Clone, PartialEq, Debug)]
pub struct FnHead {
    pub kind: ItemKind,
    pub vis: Vis,
    pub name: String,
    /// The label this mark selects by in a URL.
    pub label: String,
    pub path: String,
    pub line: u32,
    /// The impl or trait block this method is written in, as the survey
    /// headers one; empty for a free declaration.
    pub section: String,
}

pub open spec fn spec_locator(path: Seq<char>, line: nat) -> Seq<char> {
    path + ":"@ + decimal(line)
}

/// The last `/` in `s`, or -1 where there is none.
pub open spec fn last_slash_in(s: Seq<char>, j: int) -> int
    decreases j,
{
    if j <= 0 {
        -1
    } else if s[j - 1] == '/' {
        j - 1
    } else {
        last_slash_in(s, j - 1)
    }
}

/// The file's own name: what follows the last `/` of a path.
pub open spec fn file_name(path: Seq<char>) -> Seq<char> {
    path.skip(last_slash_in(path, path.len() as int) + 1)
}

proof fn lemma_last_slash_in(s: Seq<char>, j: int)
    requires
        j <= s.len(),
    ensures
        -1 <= last_slash_in(s, j) < j || (j <= 0 && last_slash_in(s, j) == -1),
        last_slash_in(s, j) >= 0 ==> s[last_slash_in(s, j)] == '/',
        forall|k: int| last_slash_in(s, j) < k < j ==> s[k] != '/',
    decreases j,
{
    if j > 0 && s[j - 1] != '/' {
        lemma_last_slash_in(s, j - 1);
    }
}

impl FnHead {
    /// What rust writes in front of the name: `pub fn`, `fn`, `macro`.
    pub fn decl(&self) -> (s: String)
        ensures
            s@ == self.kind.spec_decl_words(self.vis),
    {
        self.kind.decl_words(&self.vis)
    }

    /// `src/views/func/model.rs:210`: where the declaration is written.
    pub fn locator(&self) -> (s: String)
        ensures
            s@ == spec_locator(self.path@, self.line as nat),
    {
        proof {
            reveal_strlit(":");
        }
        let mut s = self.path.clone();
        s.append(":");
        push_decimal(&mut s, self.line as u64);
        s
    }

    /// `model.rs:210`: the same fact where a row has no room for the path.
    pub fn file_line(&self) -> (s: String)
        ensures
            s@ == file_name(self.path@) + ":"@ + decimal(self.line as nat),
    {
        proof {
            reveal_strlit(":");
        }
        let v = chars_of(self.path.as_str());
        let n = v.len();
        let mut j: usize = n;
        proof {
            lemma_last_slash_in(v@, n as int);
        }
        while j > 0 && v[j - 1] != '/'
            invariant
                j <= n,
                n == v@.len(),
                last_slash_in(v@, n as int) == last_slash_in(v@, j as int),
            decreases j,
        {
            j = j - 1;
        }
        proof {
            lemma_last_slash_in(v@, j as int);
        }
        let file = self.path.as_str().substring_char(j, n);
        assert(file@ =~= file_name(self.path@));
        let mut s = file.to_string();
        s.append(":");
        push_decimal(&mut s, self.line as u64);
        s
    }
}

pub open spec fn impl_word() -> Seq<char> {
    seq!['i', 'm', 'p', 'l', ' ']
}

pub open spec fn for_word() -> Seq<char> {
    seq![' ', 'f', 'o', 'r', ' ']
}

/// The last start `k <= j` of ` for ` in `s`, or -1 where there is none.
pub open spec fn last_for(s: Seq<char>, j: int) -> int
    decreases j + 1,
{
    if j < 0 {
        -1
    } else if run_is(s, j, for_word()) {
        j
    } else {
        last_for(s, j - 1)
    }
}

/// The first `<`, `:` or space in `p` at or past `i`, or `p.len()`.
pub open spec fn first_stop(p: Seq<char>, i: int) -> int
    decreases p.len() - i,
{
    if i >= p.len() {
        p.len() as int
    } else if p[i] == '<' || p[i] == ':' || p[i] == ' ' {
        i
    } else {
        first_stop(p, i + 1)
    }
}

pub open spec fn impl_open_word() -> Seq<char> {
    seq!['i', 'm', 'p', 'l', '<']
}

/// Where the `>` falls that closes the generic list open `depth` deep
/// before `i`, nested lists counted; -1 where it never closes.
pub open spec fn generics_close(s: Seq<char>, i: int, depth: int) -> int
    decreases s.len() - i,
{
    if i < 0 || i >= s.len() {
        -1
    } else if s[i] == '<' {
        generics_close(s, i + 1, depth + 1)
    } else if s[i] == '>' {
        if depth <= 1 {
            i
        } else {
            generics_close(s, i + 1, depth - 1)
        }
    } else {
        generics_close(s, i + 1, depth)
    }
}

/// Where the promise starts in an impl header: past `impl `, or past
/// `impl<..> ` and its generic list; -1 for a header that opens no impl.
pub open spec fn head_len(s: Seq<char>) -> int {
    if run_is(s, 0, impl_word()) {
        5
    } else if run_is(s, 0, impl_open_word()) {
        let c = generics_close(s, 4, 0);
        if c >= 0 && c + 1 < s.len() && s[c + 1] == ' ' {
            c + 2
        } else {
            -1
        }
    } else {
        -1
    }
}

/// The text after `impl ` (or `impl<..> `) in a header that opens an impl.
pub open spec fn after_impl(s: Seq<char>) -> Seq<char> {
    s.skip(head_len(s))
}

pub open spec fn opens_impl(s: Seq<char>) -> bool {
    head_len(s) >= 0
}

/// Where the promise ends in an `impl .. for ..` header: the start of the
/// last ` for `.
pub open spec fn promise_end(s: Seq<char>) -> int {
    last_for(after_impl(s), after_impl(s).len() - 5)
}

/// A header whose promise would be empty (`impl  for X`). No survey writes
/// one, and reading its promise would cut a string at a position past its
/// end.
pub open spec fn empty_promise(s: Seq<char>) -> bool {
    opens_impl(s) && promise_end(s) == 0
}

/// The trait an impl header promises, by its leading name.
pub open spec fn spec_promises(s: Seq<char>) -> Option<Seq<char>> {
    if !opens_impl(s) || promise_end(s) < 0 {
        None
    } else {
        let p = after_impl(s).take(promise_end(s));
        let e = first_stop(p, 0);
        Some(p.take(if e < 1 { 1 } else { e }))
    }
}

/// Where the generic list opened at `v[4]` closes.
fn generics_close_at(v: &Vec<char>) -> (r: Option<usize>)
    requires
        4 < v@.len(),
        v@[4] == '<',
    ensures
        match r {
            Some(c) => c as int == generics_close(v@, 4, 0) && c < v@.len(),
            None => generics_close(v@, 4, 0) == -1,
        },
{
    let n = v.len();
    let mut j: usize = 4;
    let mut d: usize = 0;
    while j < n
        invariant
            n == v@.len(),
            4 <= j <= n,
            d <= j,
            generics_close(v@, 4, 0) == generics_close(v@, j as int, d as int),
        decreases n - j,
    {
        if v[j] == '<' {
            d = d + 1;
        } else if v[j] == '>' {
            if d <= 1 {
                return Some(j);
            }
            d = d - 1;
        }
        j = j + 1;
    }
    None
}

/// Where the promise starts in a header, if it opens an impl.
fn head_len_of(v: &Vec<char>) -> (r: Option<usize>)
    ensures
        match r {
            Some(h) => h as int == head_len(v@) && h <= v@.len(),
            None => head_len(v@) < 0,
        },
{
    let open = ['i', 'm', 'p', 'l', ' '];
    let gen = ['i', 'm', 'p', 'l', '<'];
    assert(open@ =~= impl_word());
    assert(gen@ =~= impl_open_word());
    if run_matches(v, 0, open.as_slice()) {
        return Some(5);
    }
    if !run_matches(v, 0, gen.as_slice()) {
        return None;
    }
    assert(v@[4] == gen@[4]) by {
        assert(v@.subrange(0, 5)[4] == v@[4]);
    }
    match generics_close_at(v) {
        Some(c) => {
            if c < v.len() - 1 && v[c + 1] == ' ' {
                Some(c + 2)
            } else {
                None
            }
        },
        None => None,
    }
}

/// The last start of ` for ` past the header's opening, counted from there.
fn last_for_at(v: &Vec<char>, h: usize) -> (r: Option<usize>)
    requires
        h as int == head_len(v@),
        h <= v@.len(),
    ensures
        match r {
            Some(at) => last_for(after_impl(v@), after_impl(v@).len() - 5) == at as int
                && h + at + 5 <= v@.len(),
            None => last_for(after_impl(v@), after_impl(v@).len() - 5) == -1,
        },
{
    let ghost s = v@;
    let ghost rest = after_impl(s);
    let n = v.len();
    if n - h < 5 {
        assert(last_for(rest, rest.len() - 5) == -1);
        return None;
    }
    let mut k: usize = n - h - 4;
    while k > 0
        invariant
            n == v@.len(),
            s == v@,
            h <= n,
            h as int == head_len(s),
            rest == after_impl(s),
            rest == s.skip(h as int),
            n - h >= 5,
            k <= n - h - 4,
            last_for(rest, rest.len() - 5) == last_for(rest, k - 1),
        decreases k,
    {
        let at = k - 1;
        assert(s.subrange(h + at, h + at + 5) =~= rest.subrange(at as int, at + 5));
        if run_matches(v, h + at, &[' ', 'f', 'o', 'r', ' ']) {
            assert(run_is(rest, at as int, for_word()));
            assert(last_for(rest, at as int) == at);
            return Some(at);
        }
        assert(!run_is(rest, at as int, for_word()));
        k = k - 1;
    }
    None
}

impl MethodRow {
    /// The trait this row's own impl header promises, by its leading name:
    /// `impl From<Option<ast::Visibility>> for Vis` and `impl<T> From<T> for
    /// Wrapper<T>` promise `From`, and a row written in an inherent impl
    /// promises nothing.
    pub fn promises(&self) -> (p: Option<&str>)
        requires
            !empty_promise(self.section@),
        ensures
            match p {
                Some(x) => spec_promises(self.section@) == Some(x@),
                None => spec_promises(self.section@) is None,
            },
    {
        let v = chars_of(self.section.as_str());
        let h = match head_len_of(&v) {
            Some(h) => h,
            None => {
                return None;
            },
        };
        let ghost s = v@;
        let ghost rest = after_impl(s);
        let n = v.len();
        let at = match last_for_at(&v, h) {
            Some(at) => at,
            None => {
                return None;
            },
        };
        assert(promise_end(s) == at);
        assert(at > 0);
        let ghost p = rest.take(at as int);
        let mut e: usize = 0;
        while e < at && v[h + e] != '<' && v[h + e] != ':' && v[h + e] != ' '
            invariant
                e <= at,
                h + at + 5 <= n,
                n == v@.len(),
                s == v@,
                rest == s.skip(h as int),
                p == rest.take(at as int),
                first_stop(p, 0) == first_stop(p, e as int),
            decreases at - e,
        {
            assert(p[e as int] == v@[h + e]);
            e = e + 1;
        }
        proof {
            if e < at {
                assert(p[e as int] == v@[h + e]);
            }
        }
        let end = if e < 1 { 1 } else { e };
        let out = self.section.as_str().substring_char(h, h + end);
        assert(out@ =~= p.take(end as int));
        Some(out)
    }
}

/// One workspace type a function's signature names or its body uses. This
/// chart draws no block for a type, so each is a row on the sheet.
#[derive(Clone, PartialEq, Debug)]
pub struct Touch {
    /// The type's own mark, for the descent link.
    pub ty: u32,
    pub decl: String,
    pub name: String,
    pub path: String,
    pub label: String,
    /// `signature` where the declaration names it, `n refs` where only the
    /// body does.
    pub word: String,
    /// Whether the data chart draws a block for it.
    pub on_data: bool,
    /// References from this function's body, for ranking.
    pub count: u32,
}

/// The type or trait whose impl block a method is written in.
#[derive(Clone, PartialEq, Debug)]
pub struct Owner {
    pub ty: u32,
    pub decl: String,
    pub name: String,
    pub path: String,
    pub label: String,
    pub on_data: bool,
}

/// One mark on the paper: a declaration that runs.
#[derive(Clone, PartialEq, Debug)]
pub struct FnMark {
    pub id: u32,
    pub tier: Tier,
    /// The crate the declaration is written in, and the module path rust
    /// reads its file at.
    pub krate: String,
    pub module: Vec<String>,
    pub head: FnHead,
    pub rows: Vec<SigRow>,
    /// Whose method this is, where it is one.
    pub owner: Option<Owner>,
    pub delta: Delta,
    /// Callers and callees over the whole workspace, and the types touched.
    pub callers: u32,
    pub calls: u32,
    pub touches: usize,
    /// How many declarations this one reaches by the way in.
    pub runs: u32,
    /// It calls itself.
    pub recurses: bool,
}

/// `a · b · c`: the parts with a separator between each two.
pub open spec fn spec_join(parts: Seq<Seq<char>>, sep: Seq<char>) -> Seq<char>
    decreases parts.len(),
{
    if parts.len() == 0 {
        Seq::empty()
    } else if parts.len() == 1 {
        parts[0]
    } else {
        spec_join(parts.drop_last(), sep) + sep + parts.last()
    }
}

/// The parts joined, with `sep` between each two.
pub fn join_strings(parts: &Vec<String>, sep: &str) -> (s: String)
    ensures
        s@ == spec_join(views(parts@), sep@),
{
    let mut s = String::new();
    let mut i: usize = 0;
    while i < parts.len()
        invariant
            i <= parts@.len(),
            s@ == spec_join(views(parts@.take(i as int)), sep@),
        decreases parts.len() - i,
    {
        proof {
            assert(views(parts@.take(i + 1)).drop_last() =~= views(parts@.take(i as int)));
            assert(views(parts@.take(i + 1)).last() == parts@[i as int]@);
        }
        if i > 0 {
            s.append(sep);
        } else {
            assert(s@ == Seq::<char>::empty());
        }
        s.append(parts[i].as_str());
        i = i + 1;
    }
    assert(parts@.take(parts@.len() as int) =~= parts@);
    s
}

pub open spec fn spec_letter(delta: Delta) -> Option<Seq<char>> {
    match delta {
        Delta::Added => Some("A"@),
        Delta::Changed => Some("M"@),
        Delta::Same => None,
    }
}

pub open spec fn str_opt(o: Option<&str>) -> Option<Seq<char>> {
    match o {
        Some(x) => Some(x@),
        None => None,
    }
}

/// The module as rust writes it: `views::func`, or the crate at its root.
pub open spec fn spec_mod_written(krate: Seq<char>, module: Seq<Seq<char>>) -> Seq<char> {
    if module.len() == 0 { krate } else { spec_join(module, "::"@) }
}

pub open spec fn spec_stands(tier: Tier, runs: nat, recurses: bool) -> Seq<char> {
    let a = spec_tier_words(tier);
    let b = if runs > 0 { a + " \u{b7} runs "@ + decimal(runs) + " by the way in"@ } else { a };
    if recurses { b + " \u{b7} it calls itself"@ } else { b }
}

/// The parts of a mark's hover words, in order.
pub open spec fn spec_title_parts(m: FnMark) -> Seq<Seq<char>> {
    let head = m.head.kind.spec_decl_words(m.head.vis) + " "@ + m.head.name@;
    let p0 = seq![head, spec_mod_written(m.krate@, views(m.module@)),
        spec_locator(m.head.path@, m.head.line as nat), spec_tier_words(m.tier)];
    let p1 = if m.head.section@.len() > 0 { p0.insert(1, m.head.section@) } else { p0 };
    let p2 = p1.push("calls "@ + decimal(m.calls as nat) + " \u{b7} called by "@ + decimal(m.callers as nat));
    let p3 = if m.runs > 0 { p2.push("runs "@ + decimal(m.runs as nat) + " by the way in"@) } else { p2 };
    let p4 = if m.recurses { p3.push("calls itself"@) } else { p3 };
    let p5 = if m.touches > 0 { p4.push("touches "@ + spec_plural(m.touches as nat, "type"@)) } else { p4 };
    p5.push("select it"@)
}

impl FnMark {
    /// The diff's own letter for this declaration.
    pub fn letter(&self) -> (l: Option<&'static str>)
        ensures
            str_opt(l) == spec_letter(self.delta),
    {
        proof {
            reveal_strlit("A");
            reveal_strlit("M");
        }
        match self.delta {
            Delta::Added => Some("A"),
            Delta::Changed => Some("M"),
            Delta::Same => None,
        }
    }

    /// Where this mark stands, in one sentence: its tier, how much runs
    /// under it, and whether it calls itself.
    pub fn stands(&self) -> (s: String)
        ensures
            s@ == spec_stands(self.tier, self.runs as nat, self.recurses),
    {
        proof {
            reveal_strlit(" \u{b7} runs ");
            reveal_strlit(" by the way in");
            reveal_strlit(" \u{b7} it calls itself");
        }
        let mut words = self.tier.words();
        if self.runs > 0 {
            words.append(" \u{b7} runs ");
            push_decimal(&mut words, self.runs as u64);
            words.append(" by the way in");
        }
        if self.recurses {
            words.append(" \u{b7} it calls itself");
        }
        words
    }

    /// The module as rust writes it, or the crate's own name at its root.
    pub fn written(&self) -> (s: String)
        ensures
            s@ == spec_mod_written(self.krate@, views(self.module@)),
    {
        proof {
            reveal_strlit("::");
        }
        if self.module.len() == 0 {
            self.krate.clone()
        } else {
            join_strings(&self.module, "::")
        }
    }

    /// The key a module is selected by: the crate, then the module path.
    pub fn mod_key(&self) -> (k: Vec<String>)
        ensures
            views(k@) == seq![self.krate@] + views(self.module@),
    {
        crate_key(&self.krate, &self.module)
    }

    /// Everything the mark's hover words say.
    pub fn title(&self) -> (s: String)
        ensures
            s@ == spec_join(spec_title_parts(*self), " \u{b7} "@),
    {
        proof {
            reveal_strlit(" ");
            reveal_strlit("calls ");
            reveal_strlit(" \u{b7} called by ");
            reveal_strlit("runs ");
            reveal_strlit(" by the way in");
            reveal_strlit("calls itself");
            reveal_strlit("touches ");
            reveal_strlit("type");
            reveal_strlit("select it");
        }
        let mut head = self.head.decl();
        head.append(" ");
        head.append(self.head.name.as_str());
        let mut parts: Vec<String> = Vec::new();
        parts.push(head);
        parts.push(self.written());
        parts.push(self.head.locator());
        parts.push(self.tier.words());
        if self.head.section.unicode_len() > 0 {
            parts.insert(1, self.head.section.clone());
        }
        let mut calls = String::from_str("calls ");
        push_decimal(&mut calls, self.calls as u64);
        calls.append(" \u{b7} called by ");
        push_decimal(&mut calls, self.callers as u64);
        parts.push(calls);
        if self.runs > 0 {
            let mut runs = String::from_str("runs ");
            push_decimal(&mut runs, self.runs as u64);
            runs.append(" by the way in");
            parts.push(runs);
        }
        if self.recurses {
            parts.push(String::from_str("calls itself"));
        }
        if self.touches > 0 {
            let mut t = String::from_str("touches ");
            let words = plural(self.touches as u64, "type");
            t.append(words.as_str());
            parts.push(t);
        }
        parts.push(String::from_str("select it"));
        assert(views(parts@) =~= spec_title_parts(*self));
        join_strings(&parts, " \u{b7} ")
    }
}

/// The crate, then the module path: the key a frame is selected by.
pub fn crate_key(krate: &String, module: &Vec<String>) -> (k: Vec<String>)
    ensures
        views(k@) == seq![krate@] + views(module@),
{
    let mut k: Vec<String> = Vec::new();
    k.push(krate.clone());
    let mut i: usize = 0;
    while i < module.len()
        invariant
            i <= module@.len(),
            views(k@) == seq![krate@] + views(module@.take(i as int)),
        decreases module.len() - i,
    {
        let ghost before = k@;
        let c = module[i].clone();
        k.push(c);
        assert(k@ == before.push(c));
        assert(module@.take(i + 1) == module@.take(i as int).push(module@[i as int]));
        assert(views(k@) =~= views(before).push(c@));
        i = i + 1;
        assert(views(k@) =~= seq![krate@] + views(module@.take(i as int)));
    }
    assert(module@.take(module@.len() as int) =~= module@);
    k
}

/// Which module a file's declarations are written in: its crate, and the
/// module path rust reads the file at.
pub fn module_of(krate: &str, path: &str) -> (m: (String, Vec<String>))
    ensures
        m.0@ == krate@,
        views(m.1@) == spec_module_segments(path@),
{
    (krate.to_string(), module_segments(path))
}

/// What the cartouche states about the survey at this altitude.
#[derive(Clone, PartialEq, Debug, Default)]
pub struct FnFacts {
    pub fns: usize,
    pub methods: usize,
    pub macros: usize,
    pub entries: usize,
    pub ring: usize,
    pub deepest: u32,
    pub added: usize,
    pub changed: usize,
    pub unresolved: u32,
    /// Declarations the visibility reading leaves off the paper.
    pub off_paper: usize,
}

/// One crate or module frame, nested exactly as rust's modules nest.
#[derive(Clone, PartialEq, Debug)]
pub struct Frame {
    pub id: u32,
    pub krate: String,
    /// The module path, segment by segment; empty is the crate's own frame.
    pub module: Vec<String>,
    /// The frame this one sits inside; `None` only on a crate frame.
    pub parent: Option<u32>,
    /// The free declarations written here, in declaration order.
    pub marks: Vec<u32>,
    /// The owner containers whose type is declared here.
    pub owners: Vec<u32>,
    /// The module frames nested inside it.
    pub kids: Vec<u32>,
    /// The reader folded it by hand.
    pub folded: bool,
    /// Every declaration inside it, however deep.
    pub held: u32,
}

pub open spec fn opt_str(o: Option<String>) -> Option<Seq<char>> {
    match o {
        Some(x) => Some(x@),
        None => None,
    }
}

pub open spec fn spec_frame_label(krate: Seq<char>, module: Seq<Seq<char>>, multi_crate: bool) -> Option<Seq<char>> {
    if module.len() > 0 {
        Some("mod "@ + module.last())
    } else if multi_crate {
        Some(krate)
    } else {
        None
    }
}

impl Frame {
    /// The label on the border: `mod func` for a module frame, the crate's
    /// name for a crate frame where there is more than one crate.
    pub fn label(&self, multi_crate: bool) -> (l: Option<String>)
        ensures
            opt_str(l) == spec_frame_label(self.krate@, views(self.module@), multi_crate),
    {
        proof {
            reveal_strlit("mod ");
        }
        let n = self.module.len();
        if n > 0 {
            let mut s = String::from_str("mod ");
            s.append(self.module[n - 1].as_str());
            Some(s)
        } else if multi_crate {
            Some(self.krate.clone())
        } else {
            None
        }
    }

    /// This frame's name in a fold set, and in the URL that selects it.
    pub fn key(&self) -> (k: Vec<String>)
        ensures
            views(k@) == seq![self.krate@] + views(self.module@),
    {
        crate_key(&self.krate, &self.module)
    }

    /// The frame in prose: the whole path as a `use` line writes it, or the
    /// crate's own name.
    pub fn words(&self) -> (s: String)
        ensures
            s@ == spec_mod_written(self.krate@, views(self.module@)),
    {
        proof {
            reveal_strlit("::");
        }
        if self.module.len() == 0 {
            self.krate.clone()
        } else {
            join_strings(&self.module, "::")
        }
    }
}

/// One owner container: every method the workspace writes on one type or
/// trait, standing in the module the type is declared in.
#[derive(Clone, PartialEq, Debug)]
pub struct Container {
    pub id: u32,
    /// The module frame it stands in.
    pub frame: u32,
    /// The owner's own mark.
    pub ty: u32,
    /// `impl` for a type's methods, `trait` for a trait's own clauses.
    pub decl: &'static str,
    pub name: String,
    pub kind: ItemKind,
    pub vis: Vis,
    pub path: String,
    pub label: String,
    pub on_data: bool,
    /// Its methods, in declaration order.
    pub marks: Vec<u32>,
    /// The reader folded it by hand.
    pub folded: bool,
}

impl Container {
    /// The container as the paper labels it: `impl FnModel`, `trait Chart`.
    pub fn words(&self) -> (s: String)
        ensures
            s@ == self.decl@ + " "@ + self.name@,
    {
        proof {
            reveal_strlit(" ");
        }
        let mut s = self.decl.to_string();
        s.append(" ");
        s.append(self.name.as_str());
        s
    }

    /// This container's name in a fold set.
    pub fn key(&self) -> (f: FoldAt)
        ensures
            f.view() == FoldView::Owner(self.path@, self.label@),
    {
        owner_fold(self.path.as_str(), self.label.as_str())
    }
}

/// Everything one build of the function chart reads out of the survey.
#[derive(Clone, PartialEq, Debug, Default)]
pub struct FnModel {
    pub marks: Vec<FnMark>,
    /// The calls the paper draws: both ends on it.
    pub calls: Vec<Call>,
    /// Every call the survey resolved, whatever the reading; a sheet reads
    /// these.
    pub all_calls: Vec<Call>,
    /// What calls each declaration over that whole set.
    pub all_callers: HashMap<u32, Vec<u32>>,
    /// The crate and module frames, every frame after the one it sits in.
    pub frames: Vec<Frame>,
    /// The owner containers.
    pub owners: Vec<Container>,
    /// Which box each drawn mark is written in.
    pub home: HashMap<u32, Spot>,
    /// What each drawn mark calls, and what calls it, heaviest first.
    pub callees: HashMap<u32, Vec<u32>>,
    pub callers: HashMap<u32, Vec<u32>>,
    /// The boxes the reader folded by hand.
    pub folded: Vec<Spot>,
    /// Which of those folds the packer was allowed to skip.
    pub packed: Vec<Spot>,
    /// Every box a fold hides, and the folded box that stands for it: the
    /// outermost fold wins.
    pub packs: Vec<(Spot, Spot)>,
    /// Every band the paper has, in order, with its caption.
    pub bands: Vec<(u32, String)>,
    pub facts: FnFacts,
    /// The types each mark touches, by mark id.
    pub touches: HashMap<u32, Vec<Touch>>,
    /// Whether the epoch touched anything this reading draws.
    pub dirty: bool,
    /// Whether the survey has more than one crate to tell apart.
    pub multi_crate: bool,
}

} // verus!
