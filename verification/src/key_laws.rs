//! The identities the data chart keys its edges and ties by tell them apart:
//! two edges or ties with one key have the same ends, and an edge the same
//! kind, wrapper and event.

use vstd::prelude::*;

use crate::data_model::{anchor_words, event_words, kind_words, Anchor, Hold, Tie};
use crate::kinds::{HoldEvent, HoldKind};
use crate::text::{decimal, digit_char};

verus! {

/// `c` occurs nowhere in `s`.
pub open spec fn free_of(s: Seq<char>, c: char) -> bool {
    forall|i: int| 0 <= i < s.len() ==> s[i] != c
}

/// The words a tie is keyed by.
pub open spec fn tie_words(t: Tie) -> Seq<char> {
    anchor_words(t.def) + "~"@ + anchor_words(t.user)
}

/// The words a hold is keyed by.
pub open spec fn hold_words(h: Hold) -> Seq<char> {
    anchor_words(h.held) + ">"@ + anchor_words(h.holder) + ":"@ + kind_words(h.kind) + ":"@ + h.via@ + ":"@
        + event_words(h.event)
}

proof fn lemma_digit_char(d: nat)
    requires
        d < 10,
    ensures
        '0' <= digit_char(d) <= '9',
        forall|e: nat| e < 10 && digit_char(e) == digit_char(d) ==> e == d,
{
}

proof fn lemma_decimal_digits(n: nat)
    ensures
        decimal(n).len() >= 1,
        forall|i: int| 0 <= i < decimal(n).len() ==> '0' <= #[trigger] decimal(n)[i] <= '9',
    decreases n,
{
    if n < 10 {
        lemma_digit_char(n);
    } else {
        lemma_decimal_digits(n / 10);
        lemma_digit_char(n % 10);
    }
}

proof fn lemma_decimal_inj(n: nat, m: nat)
    requires
        decimal(n) == decimal(m),
    ensures
        n == m,
    decreases n,
{
    lemma_decimal_digits(n);
    lemma_decimal_digits(m);
    if n < 10 && m < 10 {
        lemma_digit_char(n);
        assert(decimal(n)[0] == digit_char(n));
        assert(decimal(m)[0] == digit_char(m));
        assert(digit_char(m) == digit_char(n));
    } else if n < 10 {
        lemma_decimal_digits(m / 10);
        assert(decimal(m).len() == decimal(m / 10).len() + 1);
    } else if m < 10 {
        lemma_decimal_digits(n / 10);
        assert(decimal(n).len() == decimal(n / 10).len() + 1);
    } else {
        let a = decimal(n);
        let b = decimal(m);
        assert(a.last() == b.last());
        lemma_digit_char(n % 10);
        lemma_digit_char(m % 10);
        assert(n % 10 == m % 10);
        assert(a.drop_last() =~= decimal(n / 10));
        assert(b.drop_last() =~= decimal(m / 10));
        lemma_decimal_inj(n / 10, m / 10);
        assert(n == 10 * (n / 10) + n % 10);
        assert(m == 10 * (m / 10) + m % 10);
    }
}

/// An anchor's words hold no `~`, `>` or `:`, and tell the anchor apart.
proof fn lemma_anchor_words(a: Anchor)
    ensures
        free_of(anchor_words(a), '~'),
        free_of(anchor_words(a), '>'),
        free_of(anchor_words(a), ':'),
        anchor_words(a).len() >= 2,
        anchor_words(a)[1] == match a {
            Anchor::Mark(_) => 'a',
            Anchor::Private(_) => 'r',
            Anchor::More(_) => 'o',
        },
{
    reveal_strlit("Mark(");
    reveal_strlit("Private(");
    reveal_strlit("More(");
    reveal_strlit(")");
    let id = match a {
        Anchor::Mark(i) => i,
        Anchor::Private(i) => i,
        Anchor::More(i) => i,
    };
    lemma_decimal_digits(id as nat);
}

proof fn lemma_anchor_inj(a: Anchor, b: Anchor)
    requires
        anchor_words(a) == anchor_words(b),
    ensures
        a == b,
{
    lemma_anchor_words(a);
    lemma_anchor_words(b);
    reveal_strlit("Mark(");
    reveal_strlit("Private(");
    reveal_strlit("More(");
    reveal_strlit(")");
    let w = anchor_words(a);
    match (a, b) {
        (Anchor::Mark(x), Anchor::Mark(y)) => {
            assert(w.subrange(5, w.len() - 1) =~= decimal(x as nat));
            assert(anchor_words(b).subrange(5, w.len() - 1) =~= decimal(y as nat));
            lemma_decimal_inj(x as nat, y as nat);
        },
        (Anchor::Private(x), Anchor::Private(y)) => {
            assert(w.subrange(8, w.len() - 1) =~= decimal(x as nat));
            assert(anchor_words(b).subrange(8, w.len() - 1) =~= decimal(y as nat));
            lemma_decimal_inj(x as nat, y as nat);
        },
        (Anchor::More(x), Anchor::More(y)) => {
            assert(w.subrange(5, w.len() - 1) =~= decimal(x as nat));
            assert(anchor_words(b).subrange(5, w.len() - 1) =~= decimal(y as nat));
            lemma_decimal_inj(x as nat, y as nat);
        },
        _ => {
            assert(w[1] == anchor_words(b)[1]);
        },
    }
}

/// Two texts, each free of `c`, followed by `c` and more, split at the
/// same place.
proof fn lemma_split_left(x: Seq<char>, y: Seq<char>, c: char, r: Seq<char>, s: Seq<char>)
    requires
        free_of(x, c),
        free_of(y, c),
        x + seq![c] + r == y + seq![c] + s,
    ensures
        x == y,
        r == s,
{
    let lhs = x + seq![c] + r;
    let rhs = y + seq![c] + s;
    if x.len() < y.len() {
        assert(lhs[x.len() as int] == c);
        assert(rhs[x.len() as int] == y[x.len() as int]);
    } else if y.len() < x.len() {
        assert(rhs[y.len() as int] == c);
        assert(lhs[y.len() as int] == x[y.len() as int]);
    } else {
        assert(x =~= lhs.take(x.len() as int));
        assert(y =~= rhs.take(y.len() as int));
        assert(r =~= lhs.skip(x.len() as int + 1));
        assert(s =~= rhs.skip(y.len() as int + 1));
    }
}

/// Two texts followed by `c` and a tail free of `c` split at the same place.
proof fn lemma_split_right(x: Seq<char>, y: Seq<char>, c: char, r: Seq<char>, s: Seq<char>)
    requires
        free_of(r, c),
        free_of(s, c),
        x + seq![c] + r == y + seq![c] + s,
    ensures
        x == y,
        r == s,
{
    let lhs = x + seq![c] + r;
    let rhs = y + seq![c] + s;
    assert(lhs.len() == rhs.len());
    if r.len() < s.len() {
        let i = lhs.len() - r.len() - 1;
        assert(lhs[i] == c);
        assert(rhs[i] == s[i - y.len() - 1]);
    } else if s.len() < r.len() {
        let i = rhs.len() - s.len() - 1;
        assert(rhs[i] == c);
        assert(lhs[i] == r[i - x.len() - 1]);
    } else {
        assert(x =~= lhs.take(x.len() as int));
        assert(y =~= rhs.take(y.len() as int));
        assert(r =~= lhs.skip(x.len() as int + 1));
        assert(s =~= rhs.skip(y.len() as int + 1));
    }
}

/// Two ties with one key tie the same two types: `Tie::key` tells ties
/// apart by their ends.
pub proof fn law_tie_key_tells_ends(a: Tie, b: Tie)
    requires
        tie_words(a) == tie_words(b),
    ensures
        a.def == b.def,
        a.user == b.user,
{
    reveal_strlit("~");
    lemma_anchor_words(a.def);
    lemma_anchor_words(b.def);
    assert("~"@ =~= seq!['~']);
    lemma_split_left(anchor_words(a.def), anchor_words(b.def), '~', anchor_words(a.user), anchor_words(b.user));
    lemma_anchor_inj(a.def, b.def);
    lemma_anchor_inj(a.user, b.user);
}

/// Two holds with one key are one edge on the paper: `Hold::key` tells holds
/// apart by their ends, kind, wrapper and event.
#[verifier::rlimit(80)]
#[verifier::spinoff_prover]
pub proof fn law_hold_key_tells_edges(a: Hold, b: Hold)
    requires
        hold_words(a) == hold_words(b),
    ensures
        a.held == b.held,
        a.holder == b.holder,
        a.kind == b.kind,
        a.via@ == b.via@,
        a.event == b.event,
{
    reveal_strlit(">");
    reveal_strlit(":");
    reveal_strlit("Owns");
    reveal_strlit("Shares");
    reveal_strlit("Borrows");
    reveal_strlit("None");
    reveal_strlit("Some(Added)");
    reveal_strlit("Some(Removed)");
    assert(">"@ =~= seq!['>']);
    assert(":"@ =~= seq![':']);
    lemma_anchor_words(a.held);
    lemma_anchor_words(b.held);
    lemma_anchor_words(a.holder);
    lemma_anchor_words(b.holder);
    let ta = anchor_words(a.holder) + ":"@ + kind_words(a.kind) + ":"@ + a.via@ + ":"@ + event_words(a.event);
    let tb = anchor_words(b.holder) + ":"@ + kind_words(b.kind) + ":"@ + b.via@ + ":"@ + event_words(b.event);
    assert(hold_words(a) =~= anchor_words(a.held) + seq!['>'] + ta);
    assert(hold_words(b) =~= anchor_words(b.held) + seq!['>'] + tb);
    lemma_split_left(anchor_words(a.held), anchor_words(b.held), '>', ta, tb);
    lemma_anchor_inj(a.held, b.held);
    let ua = kind_words(a.kind) + ":"@ + a.via@ + ":"@ + event_words(a.event);
    let ub = kind_words(b.kind) + ":"@ + b.via@ + ":"@ + event_words(b.event);
    assert(ta =~= anchor_words(a.holder) + seq![':'] + ua);
    assert(tb =~= anchor_words(b.holder) + seq![':'] + ub);
    lemma_split_left(anchor_words(a.holder), anchor_words(b.holder), ':', ua, ub);
    lemma_anchor_inj(a.holder, b.holder);
    assert(free_of(kind_words(a.kind), ':'));
    assert(free_of(kind_words(b.kind), ':'));
    let va = a.via@ + ":"@ + event_words(a.event);
    let vb = b.via@ + ":"@ + event_words(b.event);
    assert(ua =~= kind_words(a.kind) + seq![':'] + va);
    assert(ub =~= kind_words(b.kind) + seq![':'] + vb);
    lemma_split_left(kind_words(a.kind), kind_words(b.kind), ':', va, vb);
    assert(free_of(event_words(a.event), ':'));
    assert(free_of(event_words(b.event), ':'));
    assert(va =~= a.via@ + seq![':'] + event_words(a.event));
    assert(vb =~= b.via@ + seq![':'] + event_words(b.event));
    lemma_split_right(a.via@, b.via@, ':', event_words(a.event), event_words(b.event));
    if a.kind != b.kind {
        assert(kind_words(a.kind).len() != kind_words(b.kind).len() || kind_words(a.kind)[0] != kind_words(b.kind)[0]);
    }
    if a.event != b.event {
        assert(event_words(a.event).len() != event_words(b.event).len() || event_words(a.event)[5] != event_words(b.event)[5]);
    }
}

} // verus!
