//! The string aggregator: replaces each qualifying maximal run of string
//! literals with a reference to a synthesized variable whose declaration
//! builds the run's contents back by splitting a joined string on a
//! separator character, packing the text only where that is a net win.

use vstd::prelude::*;
use crate::token::{Token, TokenV, serialized, tok_text, unquoted, wf_token, wf_tokens};
use crate::stages::{char_vec, clone_chars, clone_token};
use crate::text::str_to_chars;
use vstd::arithmetic::div_mod::{lemma_fundamental_div_mod, lemma_mod_bound};
use vstd::arithmetic::mul::lemma_mul_inequality;

verus! {

/// A run's contents concatenated in order, with the separator between
/// consecutive pieces.
pub open spec fn joined_with(c: Seq<Seq<char>>, sep: char) -> Seq<char>
    decreases c.len(),
{
    if c.len() == 0 {
        Seq::empty()
    } else if c.len() == 1 {
        c[0]
    } else {
        c[0] + seq![sep] + joined_with(c.drop_first(), sep)
    }
}

/// Index of the first occurrence of `sep` in `s`, or -1.
pub open spec fn find_sep(s: Seq<char>, sep: char) -> int
    decreases s.len(),
{
    if s.len() == 0 {
        -1
    } else if s[0] == sep {
        0
    } else {
        let r = find_sep(s.drop_first(), sep);
        if r < 0 {
            -1
        } else {
            r + 1
        }
    }
}

/// What splitting `s` on the separator yields: the pieces between
/// occurrences, empty pieces included; a separator-free text is one piece.
pub open spec fn split_on(s: Seq<char>, sep: char) -> Seq<Seq<char>>
    decreases s.len(),
{
    let i = find_sep(s, sep);
    if i < 0 || i >= s.len() {
        seq![s]
    } else {
        seq![s.take(i)] + split_on(s.skip(i + 1), sep)
    }
}

proof fn lemma_find_sep_in_range(s: Seq<char>, sep: char)
    ensures
        find_sep(s, sep) < s.len(),
        find_sep(s, sep) >= 0 ==> s[find_sep(s, sep)] == sep,
    decreases s.len(),
{
    if s.len() == 0 {
    } else if s[0] == sep {
    } else {
        lemma_find_sep_in_range(s.drop_first(), sep);
    }
}

proof fn lemma_find_sep_none(s: Seq<char>, sep: char)
    ensures
        (find_sep(s, sep) < 0) <==> !s.contains(sep),
    decreases s.len(),
{
    if s.len() == 0 {
    } else {
        lemma_find_sep_none(s.drop_first(), sep);
        if s[0] == sep {
        } else if s.drop_first().contains(sep) {
            let j = choose|j: int| 0 <= j < s.drop_first().len() && s.drop_first()[j] == sep;
            assert(s[j + 1] == sep);
        } else {
            if s.contains(sep) {
                let j = choose|j: int| 0 <= j < s.len() && s[j] == sep;
                assert(s.drop_first()[j - 1] == sep);
            }
        }
    }
}

proof fn lemma_find_sep_concat(a: Seq<char>, b: Seq<char>, sep: char)
    requires
        !a.contains(sep),
    ensures
        find_sep(a + seq![sep] + b, sep) == a.len(),
    decreases a.len(),
{
    let s = a + seq![sep] + b;
    if a.len() == 0 {
        assert(s[0] == sep);
    } else {
        assert(s[0] == a[0]);
        assert(!a.drop_first().contains(sep)) by {
            if a.drop_first().contains(sep) {
                let j = choose|j: int| 0 <= j < a.drop_first().len() && a.drop_first()[j] == sep;
                assert(a[j + 1] == sep);
            }
        }
        assert(a[0] != sep);
        lemma_find_sep_concat(a.drop_first(), b, sep);
        assert(s.drop_first() =~= a.drop_first() + seq![sep] + b);
    }
}

/// Law (aggregation correctness): for a run of contents none of which holds
/// the separator, splitting the joined text on the separator restores the
/// contents exactly, in order.
pub proof fn lemma_split_join(c: Seq<Seq<char>>, sep: char)
    requires
        c.len() >= 1,
        forall|i: int| 0 <= i < c.len() ==> !(#[trigger] c[i]).contains(sep),
    ensures
        split_on(joined_with(c, sep), sep) == c,
    decreases c.len(),
{
    if c.len() == 1 {
        lemma_find_sep_none(c[0], sep);
        assert(split_on(joined_with(c, sep), sep) =~= c);
    } else {
        let rest = c.drop_first();
        let s = joined_with(c, sep);
        assert(s == c[0] + seq![sep] + joined_with(rest, sep));
        lemma_find_sep_concat(c[0], joined_with(rest, sep), sep);
        let i = find_sep(s, sep);
        assert(i == c[0].len());
        assert(s.take(i) =~= c[0]);
        assert(s.skip(i + 1) =~= joined_with(rest, sep));
        assert(forall|j: int| 0 <= j < rest.len() ==> !(#[trigger] rest[j]).contains(sep)) by {
            assert(forall|j: int| 0 <= j < rest.len() ==> rest[j] == #[trigger] c[j + 1]);
        }
        lemma_split_join(rest, sep);
        assert(split_on(s, sep) =~= seq![s.take(i)] + split_on(s.skip(i + 1), sep));
        assert(seq![c[0]] + rest =~= c);
    }
}

/// Joins a run's contents with the separator between them.
pub fn join_chars(c: &Vec<Vec<char>>, sep: char) -> (r: Vec<char>)
    ensures
        r@ == joined_with(c.deep_view(), sep),
{
    let mut out: Vec<char> = Vec::new();
    if c.len() == 0 {
        proof {
            assert(out@ =~= joined_with(c.deep_view(), sep));
        }
        return out;
    }
    let mut i: usize = c.len();
    let mut tail: Vec<char> = clone_chars(&c[c.len() - 1]);
    proof {
        assert(c.deep_view().skip(c.deep_view().len() - 1).len() == 1);
        assert(c.deep_view().skip(c.deep_view().len() - 1)[0] == c.deep_view()[c.deep_view().len()
            - 1]);
        assert(tail@ == joined_with(c.deep_view().skip(c.deep_view().len() - 1), sep));
    }
    i = c.len() - 1;
    while i > 0
        invariant
            i < c.deep_view().len(),
            tail@ == joined_with(c.deep_view().skip(i as int), sep),
        decreases i,
    {
        let mut piece: Vec<char> = clone_chars(&c[i - 1]);
        piece.push(sep);
        crate::token::push_all(&mut piece, &tail);
        proof {
            let dv = c.deep_view();
            assert(dv.skip(i - 1).len() >= 2);
            assert(dv.skip(i - 1)[0] == dv[i - 1]);
            assert(dv.skip(i - 1).drop_first() =~= dv.skip(i as int));
            assert(piece@ =~= dv[i - 1] + seq![sep] + joined_with(dv.skip(i as int), sep));
            assert(piece@ == joined_with(dv.skip(i - 1), sep));
        }
        tail = piece;
        i -= 1;
    }
    proof {
        assert(c.deep_view().skip(0) =~= c.deep_view());
    }
    tail
}

/// Splits text on the separator, per `split_on`.
pub fn split_chars(s: &Vec<char>, sep: char) -> (r: Vec<Vec<char>>)
    ensures
        r.deep_view() == split_on(s@, sep),
{
    let mut out: Vec<Vec<char>> = Vec::new();
    let mut cur: Vec<char> = Vec::new();
    let mut i: usize = 0;
    proof {
        assert(cur@ + s@.skip(0) =~= s@);
        assert(out.deep_view() + split_on(s@, sep) =~= split_on(s@, sep));
    }
    while i < s.len()
        invariant
            i <= s@.len(),
            !cur@.contains(sep),
            split_on(s@, sep) == out.deep_view() + split_on(cur@ + s@.skip(i as int), sep),
        decreases s.len() - i,
    {
        let ghost pre_out = out.deep_view();
        let ghost pre_cur = cur@;
        proof {
            assert(cur.deep_view() =~= pre_cur);
        }
        if s[i] == sep {
            out.push(cur);
            cur = Vec::new();
            proof {
                let rest = s@.skip(i + 1);
                lemma_find_sep_concat(pre_cur, rest, sep);
                lemma_find_sep_in_range(pre_cur + seq![sep] + rest, sep);
                assert(pre_cur + s@.skip(i as int) =~= pre_cur + seq![sep] + rest);
                let w = pre_cur + seq![sep] + rest;
                assert(w.take(pre_cur.len() as int) =~= pre_cur);
                assert(w.skip(pre_cur.len() as int + 1) =~= rest);
                assert(split_on(w, sep) == seq![pre_cur] + split_on(rest, sep));
                assert(out.deep_view() =~= pre_out + seq![pre_cur]);
                assert(cur@ + rest =~= rest);
                assert(out.deep_view() + split_on(cur@ + s@.skip(i + 1), sep) =~= pre_out + (
                seq![pre_cur] + split_on(rest, sep)));
            }
        } else {
            cur.push(s[i]);
            proof {
                assert(cur@ + s@.skip(i + 1) =~= pre_cur + s@.skip(i as int));
                assert(!cur@.contains(sep)) by {
                    if cur@.contains(sep) {
                        let j = choose|j: int| 0 <= j < cur@.len() && cur@[j] == sep;
                        if j < pre_cur.len() {
                            assert(pre_cur[j] == sep);
                        }
                    }
                }
            }
        }
        i += 1;
    }
    proof {
        assert(cur@ + s@.skip(s@.len() as int) =~= cur@);
        lemma_find_sep_none(cur@, sep);
        assert(split_on(cur@, sep) == seq![cur@]);
    }
    let ghost pre_out = out.deep_view();
    let ghost pre_cur = cur@;
    proof {
        assert(cur.deep_view() =~= pre_cur);
    }
    out.push(cur);
    proof {
        assert(out.deep_view() =~= pre_out + seq![pre_cur]);
        assert(out.deep_view() =~= split_on(s@, sep));
    }
    out
}

/// Is this token a string literal?
pub open spec fn is_str_tok(t: TokenV) -> bool {
    t is Str
}

/// A string token's unquoted content (other tokens have none).
pub open spec fn str_content(t: TokenV) -> Seq<char> {
    match t {
        TokenV::Str(s) => if s.len() >= 2 {
            unquoted(s)
        } else {
            Seq::empty()
        },
        _ => Seq::empty(),
    }
}

/// The contents of the maximal string runs of `s` from position `i` on,
/// `cur` being the contents of the run in progress just before `i`.
pub open spec fn runs_acc(s: Seq<TokenV>, i: int, cur: Option<Seq<Seq<char>>>) -> Seq<
    Seq<Seq<char>>,
>
    decreases s.len() - i,
{
    if i < 0 || i >= s.len() {
        match cur {
            Option::Some(r) => seq![r],
            Option::None => Seq::empty(),
        }
    } else if is_str_tok(s[i]) {
        runs_acc(
            s,
            i + 1,
            Option::Some(
                match cur {
                    Option::Some(r) => r.push(str_content(s[i])),
                    Option::None => seq![str_content(s[i])],
                },
            ),
        )
    } else {
        match cur {
            Option::Some(r) => seq![r] + runs_acc(s, i + 1, Option::None),
            Option::None => runs_acc(s, i + 1, Option::None),
        }
    }
}

/// The contents of every maximal run of string tokens in `s`, in order.
pub open spec fn runs_of(s: Seq<TokenV>) -> Seq<Seq<Seq<char>>> {
    runs_acc(s, 0, Option::None)
}

/// How many runs of `rs` have exactly the contents `c`.
pub open spec fn count_runs(rs: Seq<Seq<Seq<char>>>, c: Seq<Seq<char>>) -> nat
    decreases rs.len(),
{
    if rs.len() == 0 {
        0
    } else {
        count_runs(rs.drop_last(), c) + if rs.last() == c {
            1nat
        } else {
            0nat
        }
    }
}

/// The distinct run contents, in order of first appearance.
pub open spec fn firsts(rs: Seq<Seq<Seq<char>>>) -> Seq<Seq<Seq<char>>>
    decreases rs.len(),
{
    if rs.len() == 0 {
        Seq::empty()
    } else {
        let rest = firsts(rs.drop_last());
        if rest.contains(rs.last()) {
            rest
        } else {
            rest.push(rs.last())
        }
    }
}

/// The decimal digits of `n`, most significant first.
pub open spec fn dec_digits(n: nat) -> Seq<char>
    decreases n,
{
    if n < 10 {
        seq![digit_char(n)]
    } else {
        dec_digits(n / 10).push(digit_char(n % 10))
    }
}

/// One decimal digit.
pub open spec fn digit_char(n: nat) -> char {
    if n == 0 {
        '0'
    } else if n == 1 {
        '1'
    } else if n == 2 {
        '2'
    } else if n == 3 {
        '3'
    } else if n == 4 {
        '4'
    } else if n == 5 {
        '5'
    } else if n == 6 {
        '6'
    } else if n == 7 {
        '7'
    } else if n == 8 {
        '8'
    } else {
        '9'
    }
}

/// The name of the `k`-th synthesized variable: the base name, deduplicated
/// with a numeric suffix once the base name is taken.
pub open spec fn var_name(base: Seq<char>, k: nat) -> Seq<char> {
    if k == 0 {
        base
    } else {
        base + dec_digits(k)
    }
}

/// Does the separator occur in any string of the run?
pub open spec fn run_has_sep(c: Seq<Seq<char>>, sep: char) -> bool {
    exists|i: int| 0 <= i < c.len() && (#[trigger] c[i]).contains(sep)
}

/// The text of the synthesized declaration:
/// `var <name>="<joined>".split("<sep>")`.
pub open spec fn decl_text(m: Seq<char>, c: Seq<Seq<char>>, sep: char) -> Seq<char> {
    seq!['v', 'a', 'r', ' '] + m + seq!['=', '"'] + joined_with(c, sep) + seq!['"', '.', 's', 'p',
        'l', 'i', 't', '(', '"'] + seq![sep] + seq!['"', ')']
}

/// The serialized cost of a run left inline: each string with its quotes.
pub open spec fn inline_len(c: Seq<Seq<char>>) -> nat
    decreases c.len(),
{
    if c.len() == 0 {
        0
    } else {
        c[0].len() + 2 + inline_len(c.drop_first())
    }
}

/// A run content qualifies for packing: the separator is absent from every
/// string, and the declaration, its line break, and one reference per
/// occurrence together cost fewer characters than the strings written out
/// inline at every occurrence.
pub open spec fn qualifies(c: Seq<Seq<char>>, k: nat, m: Seq<char>, sep: char) -> bool {
    k >= 1 && !run_has_sep(c, sep) && decl_text(m, c, sep).len() + 1 + k * m.len() < k
        * inline_len(c)
}

/// Law (aggregation correctness): a qualifying run's packed declaration
/// builds, by splitting the joined string on the separator, exactly the
/// run's contents, in order.
pub proof fn lemma_packed_run_restored(c: Seq<Seq<char>>, k: nat, m: Seq<char>, sep: char)
    requires
        qualifies(c, k, m, sep),
    ensures
        split_on(joined_with(c, sep), sep) == c,
{
    if c.len() == 0 {
        assert(inline_len(c) == 0);
        assert(k * inline_len(c) == 0) by (nonlinear_arith)
            requires
                inline_len(c) == 0,
        ;
    }
    assert(forall|i: int| 0 <= i < c.len() ==> !(#[trigger] c[i]).contains(sep));
    lemma_split_join(c, sep);
}

proof fn lemma_joined_len(c: Seq<Seq<char>>, sep: char)
    requires
        c.len() >= 1,
    ensures
        inline_len(c) == joined_with(c, sep).len() + c.len() + 1,
    decreases c.len(),
{
    if c.len() == 1 {
        assert(c.drop_first().len() == 0);
        assert(inline_len(c.drop_first()) == 0);
        assert(inline_len(c) == c[0].len() + 2);
        assert(joined_with(c, sep) == c[0]);
    } else {
        lemma_joined_len(c.drop_first(), sep);
        assert(inline_len(c) == c[0].len() + 2 + inline_len(c.drop_first()));
        assert(joined_with(c, sep) == c[0] + seq![sep] + joined_with(c.drop_first(), sep));
        assert(joined_with(c, sep).len() == c[0].len() + 1 + joined_with(c.drop_first(),
            sep).len());
    }
}

proof fn lemma_mul_gt_div(k: int, d: int, x: int)
    requires
        k >= 0,
        d >= 1,
        x >= 0,
    ensures
        (k * d > x) <==> (k > x / d),
{
    lemma_fundamental_div_mod(x, d);
    lemma_mod_bound(x, d);
    let q = x / d;
    if k > q {
        lemma_mul_inequality(q + 1, k, d);
        assert((q + 1) * d == q * d + d) by (nonlinear_arith);
        assert(d * q == q * d) by (nonlinear_arith);
        assert(k * d >= q * d + d);
    } else {
        lemma_mul_inequality(k, q, d);
        assert(d * q == q * d) by (nonlinear_arith);
        assert(k * d <= q * d);
    }
}

/// Compares two run contents.
pub fn contents_eq(a: &Vec<Vec<char>>, b: &Vec<Vec<char>>) -> (r: bool)
    ensures
        r == (a.deep_view() == b.deep_view()),
{
    if a.len() != b.len() {
        proof {
            assert(a.deep_view().len() != b.deep_view().len());
        }
        return false;
    }
    let mut i: usize = 0;
    while i < a.len()
        invariant
            a.deep_view().len() == b.deep_view().len(),
            a@.len() == a.deep_view().len(),
            b@.len() == b.deep_view().len(),
            i <= a@.len(),
            forall|j: int| 0 <= j < i ==> a.deep_view()[j] == b.deep_view()[j],
        decreases a.len() - i,
    {
        if !crate::route::chars_eq(&a[i], &b[i]) {
            proof {
                assert(a.deep_view()[i as int] == a@[i as int]@);
                assert(b.deep_view()[i as int] == b@[i as int]@);
            }
            return false;
        }
        proof {
            assert(a.deep_view()[i as int] == a@[i as int]@);
            assert(b.deep_view()[i as int] == b@[i as int]@);
        }
        i += 1;
    }
    proof {
        assert(a.deep_view() =~= b.deep_view());
    }
    true
}

/// Does this list of run contents contain `c`?
fn contents_member(rs: &Vec<Vec<Vec<char>>>, c: &Vec<Vec<char>>) -> (r: bool)
    ensures
        r == rs.deep_view().contains(c.deep_view()),
{
    let mut i: usize = 0;
    while i < rs.len()
        invariant
            i <= rs@.len(),
            rs@.len() == rs.deep_view().len(),
            forall|j: int| 0 <= j < i ==> rs.deep_view()[j] != c.deep_view(),
        decreases rs.len() - i,
    {
        if contents_eq(&rs[i], c) {
            proof {
                assert(rs.deep_view()[i as int] == rs@[i as int].deep_view());
            }
            return true;
        }
        proof {
            assert(rs.deep_view()[i as int] == rs@[i as int].deep_view());
        }
        i += 1;
    }
    false
}

/// Counts the runs with contents `c`.
fn count_runs_exec(rs: &Vec<Vec<Vec<char>>>, c: &Vec<Vec<char>>) -> (r: usize)
    ensures
        r as nat == count_runs(rs.deep_view(), c.deep_view()),
{
    let mut n: usize = 0;
    let mut i: usize = 0;
    while i < rs.len()
        invariant
            i <= rs@.len(),
            rs@.len() == rs.deep_view().len(),
            n as nat == count_runs(rs.deep_view().take(i as int), c.deep_view()),
            n <= i,
        decreases rs.len() - i,
    {
        let ghost dv = rs.deep_view();
        proof {
            assert(dv.take(i + 1).drop_last() =~= dv.take(i as int));
            assert(dv.take(i + 1).last() == dv[i as int]);
            assert(dv[i as int] == rs@[i as int].deep_view());
        }
        if contents_eq(&rs[i], c) {
            n += 1;
        }
        i += 1;
    }
    proof {
        assert(rs.deep_view().take(rs.deep_view().len() as int) =~= rs.deep_view());
    }
    n
}

/// The distinct run contents in order of first appearance.
fn firsts_exec(rs: &Vec<Vec<Vec<char>>>) -> (r: Vec<Vec<Vec<char>>>)
    ensures
        r.deep_view() == firsts(rs.deep_view()),
{
    let mut out: Vec<Vec<Vec<char>>> = Vec::new();
    let mut i: usize = 0;
    while i < rs.len()
        invariant
            i <= rs@.len(),
            rs@.len() == rs.deep_view().len(),
            out.deep_view() == firsts(rs.deep_view().take(i as int)),
        decreases rs.len() - i,
    {
        let ghost dv = rs.deep_view();
        let ghost pre = out.deep_view();
        proof {
            assert(dv.take(i + 1).drop_last() =~= dv.take(i as int));
            assert(dv.take(i + 1).last() == dv[i as int]);
            assert(dv[i as int] == rs@[i as int].deep_view());
        }
        if !contents_member(&out, &rs[i]) {
            let mut copy: Vec<Vec<char>> = Vec::new();
            let mut j: usize = 0;
            while j < rs[i].len()
                invariant
                    i < rs@.len(),
                    j <= rs@[i as int]@.len(),
                    copy.deep_view() == rs@[i as int].deep_view().take(j as int),
                decreases rs@[i as int]@.len() - j,
            {
                copy.push(clone_chars(&rs[i][j]));
                proof {
                    let idv = rs@[i as int].deep_view();
                    assert(idv.take(j + 1) =~= idv.take(j as int).push(idv[j as int]));
                    assert(copy.deep_view() =~= idv.take(j as int).push(idv[j as int]));
                }
                j += 1;
            }
            proof {
                let idv = rs@[i as int].deep_view();
                assert(idv.take(idv.len() as int) =~= idv);
            }
            out.push(copy);
            proof {
                assert(out.deep_view() =~= pre.push(dv[i as int]));
            }
        }
        proof {
            assert(out.deep_view() =~= firsts(dv.take(i + 1)));
        }
        i += 1;
    }
    proof {
        assert(rs.deep_view().take(rs.deep_view().len() as int) =~= rs.deep_view());
    }
    out
}

/// The decimal digits of `n`.
fn dec_digits_exec(n: usize) -> (r: Vec<char>)
    ensures
        r@ == dec_digits(n as nat),
    decreases n,
{
    if n < 10 {
        let c = match n {
            0 => '0',
            1 => '1',
            2 => '2',
            3 => '3',
            4 => '4',
            5 => '5',
            6 => '6',
            7 => '7',
            8 => '8',
            _ => '9',
        };
        proof {
            assert(c == digit_char(n as nat));
        }
        char_vec(c)
    } else {
        let mut v = dec_digits_exec(n / 10);
        let c = match n % 10 {
            0 => '0',
            1 => '1',
            2 => '2',
            3 => '3',
            4 => '4',
            5 => '5',
            6 => '6',
            7 => '7',
            8 => '8',
            _ => '9',
        };
        proof {
            assert(c == digit_char((n % 10) as nat));
        }
        v.push(c);
        v
    }
}

/// The name of the `k`-th synthesized variable.
fn var_name_exec(base: &Vec<char>, k: usize) -> (r: Vec<char>)
    ensures
        r@ == var_name(base@, k as nat),
{
    if k == 0 {
        clone_chars(base)
    } else {
        let mut v = clone_chars(base);
        crate::token::push_all(&mut v, &dec_digits_exec(k));
        v
    }
}

/// Does the separator occur in any string of the run?
fn run_has_sep_exec(c: &Vec<Vec<char>>, sep: char) -> (r: bool)
    ensures
        r == run_has_sep(c.deep_view(), sep),
{
    let mut i: usize = 0;
    while i < c.len()
        invariant
            i <= c@.len(),
            c@.len() == c.deep_view().len(),
            forall|j: int| 0 <= j < i ==> !(#[trigger] c.deep_view()[j]).contains(sep),
        decreases c.len() - i,
    {
        let piece = &c[i];
        let mut j: usize = 0;
        while j < piece.len()
            invariant
                i < c@.len(),
                piece@ == c@[i as int]@,
                j <= piece@.len(),
                forall|q: int| 0 <= q < j ==> piece@[q] != sep,
            decreases piece.len() - j,
        {
            if piece[j] == sep {
                proof {
                    assert(c.deep_view()[i as int] == c@[i as int]@);
                    assert(c.deep_view()[i as int].contains(sep));
                }
                return true;
            }
            j += 1;
        }
        proof {
            assert(c.deep_view()[i as int] == c@[i as int]@);
            assert(!c.deep_view()[i as int].contains(sep));
        }
        i += 1;
    }
    false
}

/// Builds the declaration text for name `m`, joined content `joined` and
/// separator `sep`.
fn decl_text_exec(m: &Vec<char>, joined: &Vec<char>, sep: char, Ghost(c): Ghost<Seq<Seq<char>>>)
    -> (r: Vec<char>)
    requires
        joined@ == joined_with(c, sep),
    ensures
        r@ == decl_text(m@, c, sep),
{
    let mut out = str_to_chars("var ");
    proof {
        reveal_strlit("var ");
        assert(out@ =~= seq!['v', 'a', 'r', ' ']);
    }
    crate::token::push_all(&mut out, m);
    out.push('=');
    out.push('"');
    crate::token::push_all(&mut out, joined);
    let tail = str_to_chars("\".split(\"");
    proof {
        reveal_strlit("\".split(\"");
        assert(tail@ =~= seq!['"', '.', 's', 'p', 'l', 'i', 't', '(', '"']);
    }
    crate::token::push_all(&mut out, &tail);
    out.push(sep);
    out.push('"');
    out.push(')');
    proof {
        assert(out@ =~= decl_text(m@, c, sep));
    }
    out
}

/// Decides whether a run content qualifies for packing, per `qualifies`.
fn qualifies_exec(c: &Vec<Vec<char>>, k: usize, m: &Vec<char>, sep: char) -> (r: bool)
    ensures
        r == qualifies(c.deep_view(), k as nat, m@, sep),
{
    if k == 0 {
        return false;
    }
    if run_has_sep_exec(c, sep) {
        return false;
    }
    let joined = join_chars(c, sep);
    let decl = decl_text_exec(m, &joined, sep, Ghost(c.deep_view()));
    if c.len() == 0 {
        proof {
            assert(inline_len(c.deep_view()) == 0);
            assert(k as nat * inline_len(c.deep_view()) == 0) by (nonlinear_arith)
                requires
                    inline_len(c.deep_view()) == 0,
            ;
        }
        return false;
    }
    proof {
        lemma_joined_len(c.deep_view(), sep);
    }
    let inline: u128 = joined.len() as u128 + c.len() as u128 + 1;
    let mlen: u128 = m.len() as u128;
    let lhs: u128 = decl.len() as u128 + 1;
    if inline <= mlen {
        proof {
            lemma_mul_inequality(inline_len(c.deep_view()) as int, m@.len() as int, k as int);
            assert(inline_len(c.deep_view()) as int * k as int == k as int * inline_len(
                c.deep_view()) as int) by (nonlinear_arith);
            assert(m@.len() as int * k as int == k as int * m@.len() as int) by (nonlinear_arith);
        }
        return false;
    }
    let d: u128 = inline - mlen;
    let q: u128 = lhs / d;
    let r = (k as u128) > q;
    proof {
        lemma_mul_gt_div(k as int, d as int, lhs as int);
        assert(k as int * d as int == k as int * inline_len(c.deep_view()) as int - k as int
            * m@.len() as int) by (nonlinear_arith)
            requires
                d as int == inline_len(c.deep_view()) as int - m@.len() as int,
        ;
    }
    r
}

/// The line-break token appended after a synthesized declaration.
pub open spec fn backline_tok() -> TokenV {
    TokenV::Char('\n')
}

/// What a finished run flushes to: a run with the target contents becomes
/// one reference token, preceded at its first occurrence by the declaration
/// and a line break; any other run is emitted unchanged.
pub open spec fn flush_run(
    run_toks: Seq<TokenV>,
    run_c: Seq<Seq<char>>,
    declared: bool,
    c: Seq<Seq<char>>,
    m: Seq<char>,
    sep: char,
) -> (Seq<TokenV>, bool) {
    if run_toks.len() == 0 {
        (Seq::empty(), declared)
    } else if run_c == c {
        if declared {
            (seq![TokenV::Other(m)], true)
        } else {
            (seq![TokenV::Other(decl_text(m, c, sep)), backline_tok(), TokenV::Other(m)], true)
        }
    } else {
        (run_toks, declared)
    }
}

/// Replacement of the runs with contents `c` from position `i` on, with the
/// pending run and the declared flag carried along.
pub open spec fn repl_acc(
    s: Seq<TokenV>,
    i: int,
    run_toks: Seq<TokenV>,
    run_c: Seq<Seq<char>>,
    declared: bool,
    c: Seq<Seq<char>>,
    m: Seq<char>,
    sep: char,
) -> Seq<TokenV>
    decreases s.len() - i,
{
    if i < 0 || i >= s.len() {
        flush_run(run_toks, run_c, declared, c, m, sep).0
    } else if is_str_tok(s[i]) {
        repl_acc(s, i + 1, run_toks.push(s[i]), run_c.push(str_content(s[i])), declared, c, m, sep)
    } else {
        let fd = flush_run(run_toks, run_c, declared, c, m, sep);
        fd.0 + seq![s[i]] + repl_acc(s, i + 1, Seq::empty(), Seq::empty(), fd.1, c, m, sep)
    }
}

/// The sequence with every maximal string run of contents `c` replaced by a
/// reference to the variable `m`, the first replacement preceded by the
/// variable's declaration and a line break.
pub open spec fn replace_runs(s: Seq<TokenV>, c: Seq<Seq<char>>, m: Seq<char>, sep: char) -> Seq<
    TokenV,
> {
    repl_acc(s, 0, Seq::empty(), Seq::empty(), false, c, m, sep)
}

/// A pending run's tokens beside its contents: well-formed string tokens,
/// one per content.
pub open spec fn run_matches(rt: Seq<TokenV>, rc: Seq<Seq<char>>) -> bool {
    rt.len() == rc.len() && forall|j: int|
        0 <= j < rt.len() ==> is_str_tok(#[trigger] rt[j]) && wf_token(rt[j]) && rc[j]
            == str_content(rt[j])
}

/// The pending-run argument as the runs accumulator sees it.
pub open spec fn pending(rt: Seq<TokenV>, rc: Seq<Seq<char>>) -> Option<Seq<Seq<char>>> {
    if rt.len() == 0 {
        Option::None
    } else {
        Option::Some(rc)
    }
}

/// The signed change of serialized length that packing one content brings:
/// the declaration and its line break once, and one reference in place of
/// the inline strings at each of the `a` occurrences.
pub open spec fn pack_delta(a: nat, d: bool, c: Seq<Seq<char>>, m: Seq<char>, sep: char) -> int {
    (if a >= 1 && !d {
        decl_text(m, c, sep).len() as int + 1
    } else {
        0int
    }) + (a * m.len()) as int - (a * inline_len(c)) as int
}

proof fn lemma_serialized_one(t: TokenV)
    ensures
        serialized(seq![t]) == tok_text(t),
{
    assert(seq![t].drop_last() =~= Seq::<TokenV>::empty());
    assert(serialized(Seq::<TokenV>::empty()) + tok_text(t) =~= tok_text(t));
}

proof fn lemma_count_cons(x: Seq<Seq<char>>, r: Seq<Seq<Seq<char>>>, c: Seq<Seq<char>>)
    ensures
        count_runs(seq![x] + r, c) == count_runs(r, c) + if x == c {
            1nat
        } else {
            0nat
        },
    decreases r.len(),
{
    if r.len() == 0 {
        assert((seq![x] + r) =~= seq![x]);
        assert(seq![x].drop_last() =~= Seq::<Seq<Seq<char>>>::empty());
        assert(seq![x].last() == x);
        assert(count_runs(Seq::<Seq<Seq<char>>>::empty(), c) == 0);
        assert(count_runs(seq![x], c) == if x == c {
            1nat
        } else {
            0nat
        });
    } else {
        lemma_count_cons(x, r.drop_last(), c);
        assert((seq![x] + r).drop_last() =~= seq![x] + r.drop_last());
        assert((seq![x] + r).last() == r.last());
        assert(count_runs(seq![x] + r, c) == count_runs(seq![x] + r.drop_last(), c) + if r.last()
            == c {
            1nat
        } else {
            0nat
        });
        assert(count_runs(r, c) == count_runs(r.drop_last(), c) + if r.last() == c {
            1nat
        } else {
            0nat
        });
    }
}

proof fn lemma_inline_push(c: Seq<Seq<char>>, x: Seq<char>)
    ensures
        inline_len(c.push(x)) == inline_len(c) + x.len() + 2,
    decreases c.len(),
{
    if c.len() == 0 {
        assert(c.push(x)[0] == x);
        assert(c.push(x).drop_first() =~= Seq::<Seq<char>>::empty());
        assert(inline_len(Seq::<Seq<char>>::empty()) == 0);
        assert(inline_len(c.push(x)) == x.len() + 2 + inline_len(c.push(x).drop_first()));
    } else {
        lemma_inline_push(c.drop_first(), x);
        assert(c.push(x).drop_first() =~= c.drop_first().push(x));
        assert(c.push(x)[0] == c[0]);
        assert(inline_len(c.push(x)) == c[0].len() + 2 + inline_len(c.push(x).drop_first()));
        assert(inline_len(c) == c[0].len() + 2 + inline_len(c.drop_first()));
    }
}

proof fn lemma_run_inline_len(rt: Seq<TokenV>, rc: Seq<Seq<char>>)
    requires
        run_matches(rt, rc),
    ensures
        serialized(rt).len() == inline_len(rc),
    decreases rt.len(),
{
    if rt.len() == 0 {
        assert(rc =~= Seq::<Seq<char>>::empty());
    } else {
        let rt0 = rt.drop_last();
        let rc0 = rc.drop_last();
        assert(run_matches(rt0, rc0)) by {
            assert(forall|j: int| 0 <= j < rt0.len() ==> rt0[j] == #[trigger] rt[j] && rc0[j]
                == rc[j]);
        }
        lemma_run_inline_len(rt0, rc0);
        assert(is_str_tok(rt.last()) && wf_token(rt.last()) && rc.last() == str_content(
            rt.last())) by {
            assert(rt.last() == rt[rt.len() - 1]);
            assert(rc.last() == rc[rc.len() - 1]);
        }
        assert(tok_text(rt.last()).len() == rc.last().len() + 2);
        assert(rc0.push(rc.last()) =~= rc);
        lemma_inline_push(rc0, rc.last());
    }
}

proof fn lemma_flush_len(
    rt: Seq<TokenV>,
    rc: Seq<Seq<char>>,
    d: bool,
    c: Seq<Seq<char>>,
    m: Seq<char>,
    sep: char,
)
    requires
        run_matches(rt, rc),
    ensures
        serialized(flush_run(rt, rc, d, c, m, sep).0).len() as int == (if rt.len() == 0 {
            0int
        } else if rc == c {
            (if d {
                0int
            } else {
                decl_text(m, c, sep).len() as int + 1
            }) + m.len()
        } else {
            inline_len(rc) as int
        }),
        flush_run(rt, rc, d, c, m, sep).1 == (d || (rt.len() > 0 && rc == c)),
{
    if rt.len() == 0 {
    } else if rc == c {
        if d {
            lemma_serialized_one(TokenV::Other(m));
        } else {
            let three = seq![TokenV::Other(decl_text(m, c, sep)), backline_tok(), TokenV::Other(m)];
            assert(three =~= seq![TokenV::Other(decl_text(m, c, sep))] + seq![backline_tok()]
                + seq![TokenV::Other(m)]);
            crate::token::lemma_serialized_add(
                seq![TokenV::Other(decl_text(m, c, sep))] + seq![backline_tok()],
                seq![TokenV::Other(m)],
            );
            crate::token::lemma_serialized_add(
                seq![TokenV::Other(decl_text(m, c, sep))],
                seq![backline_tok()],
            );
            lemma_serialized_one(TokenV::Other(decl_text(m, c, sep)));
            lemma_serialized_one(backline_tok());
            lemma_serialized_one(TokenV::Other(m));
        }
    } else {
        lemma_run_inline_len(rt, rc);
    }
}

proof fn lemma_repl_acc_len(
    s: Seq<TokenV>,
    i: int,
    rt: Seq<TokenV>,
    rc: Seq<Seq<char>>,
    d: bool,
    c: Seq<Seq<char>>,
    m: Seq<char>,
    sep: char,
)
    requires
        wf_tokens(s),
        0 <= i <= s.len(),
        run_matches(rt, rc),
    ensures
        serialized(repl_acc(s, i, rt, rc, d, c, m, sep)).len() as int == serialized(rt).len()
            + serialized(s.skip(i)).len() + pack_delta(
            count_runs(runs_acc(s, i, pending(rt, rc)), c),
            d,
            c,
            m,
            sep,
        ),
    decreases s.len() - i,
{
    let a = count_runs(runs_acc(s, i, pending(rt, rc)), c);
    if i == s.len() {
        assert(s.skip(i) =~= Seq::<TokenV>::empty());
        lemma_flush_len(rt, rc, d, c, m, sep);
        if rt.len() == 0 {
            assert(runs_acc(s, i, pending(rt, rc)) =~= Seq::<Seq<Seq<char>>>::empty());
            assert(a == 0);
        } else {
            assert(runs_acc(s, i, pending(rt, rc)) =~= seq![rc]);
            lemma_count_cons(rc, Seq::<Seq<Seq<char>>>::empty(), c);
            assert(seq![rc] + Seq::<Seq<Seq<char>>>::empty() =~= seq![rc]);
            if rc == c {
                assert(a == 1);
                lemma_run_inline_len(rt, rc);
                assert((1nat * m.len()) as int == m.len() as int) by (nonlinear_arith);
                assert((1nat * inline_len(c)) as int == inline_len(c) as int)
                    by (nonlinear_arith);
            } else {
                assert(a == 0);
                assert((0nat * m.len()) as int == 0) by (nonlinear_arith);
                assert((0nat * inline_len(c)) as int == 0) by (nonlinear_arith);
            }
        }
        assert((0nat * m.len()) as int == 0) by (nonlinear_arith);
        assert((0nat * inline_len(c)) as int == 0) by (nonlinear_arith);
    } else if is_str_tok(s[i]) {
        assert(wf_token(s[i]));
        let rt2 = rt.push(s[i]);
        let rc2 = rc.push(str_content(s[i]));
        assert(run_matches(rt2, rc2)) by {
            assert(forall|j: int| 0 <= j < rt.len() ==> rt2[j] == #[trigger] rt[j] && rc2[j]
                == rc[j]);
            assert(rt2[rt.len() as int] == s[i]);
            assert(rc2[rt.len() as int] == str_content(s[i]));
        }
        lemma_repl_acc_len(s, i + 1, rt2, rc2, d, c, m, sep);
        crate::token::lemma_serialized_push(rt, s[i]);
        assert(s.skip(i) =~= seq![s[i]] + s.skip(i + 1));
        crate::token::lemma_serialized_add(seq![s[i]], s.skip(i + 1));
        lemma_serialized_one(s[i]);
        assert(pending(rt2, rc2) == Option::Some(rc2));
        if rt.len() == 0 {
            assert(rc2 =~= seq![str_content(s[i])]);
            assert(runs_acc(s, i, pending(rt, rc)) == runs_acc(s, i + 1, Option::Some(rc2)));
        } else {
            assert(runs_acc(s, i, pending(rt, rc)) == runs_acc(s, i + 1, Option::Some(rc2)));
        }
    } else {
        let fd = flush_run(rt, rc, d, c, m, sep);
        lemma_flush_len(rt, rc, d, c, m, sep);
        lemma_repl_acc_len(s, i + 1, Seq::empty(), Seq::empty(), fd.1, c, m, sep);
        let out2 = repl_acc(s, i + 1, Seq::empty(), Seq::empty(), fd.1, c, m, sep);
        let a2 = count_runs(runs_acc(s, i + 1, Option::None), c);
        crate::token::lemma_serialized_add(fd.0 + seq![s[i]], out2);
        crate::token::lemma_serialized_add(fd.0, seq![s[i]]);
        lemma_serialized_one(s[i]);
        assert(s.skip(i) =~= seq![s[i]] + s.skip(i + 1));
        crate::token::lemma_serialized_add(seq![s[i]], s.skip(i + 1));
        assert(serialized(Seq::<TokenV>::empty()) =~= Seq::<char>::empty());
        assert(pending(Seq::<TokenV>::empty(), Seq::<Seq<char>>::empty()) == Option::<Seq<
            Seq<char>,
        >>::None);
        if rt.len() == 0 {
            assert(runs_acc(s, i, pending(rt, rc)) == runs_acc(s, i + 1, Option::None));
            assert(a == a2);
        } else {
            assert(runs_acc(s, i, pending(rt, rc)) =~= seq![rc] + runs_acc(
                s,
                i + 1,
                Option::None,
            ));
            lemma_count_cons(rc, runs_acc(s, i + 1, Option::None), c);
            if rc == c {
                assert(a == a2 + 1);
                assert((a * m.len()) as int == m.len() as int + (a2 * m.len()) as int)
                    by (nonlinear_arith)
                    requires
                        a == a2 + 1,
                ;
                assert((a * inline_len(c)) as int == inline_len(c) as int + (a2 * inline_len(
                    c)) as int) by (nonlinear_arith)
                    requires
                        a == a2 + 1,
                ;
                lemma_run_inline_len(rt, rc);
            } else {
                assert(a == a2);
            }
        }
    }
}

/// Replacing a run content that qualifies never grows the serialized text.
pub proof fn lemma_replace_runs_no_growth(
    s: Seq<TokenV>,
    c: Seq<Seq<char>>,
    m: Seq<char>,
    sep: char,
)
    requires
        wf_tokens(s),
        qualifies(c, count_runs(runs_of(s), c), m, sep),
    ensures
        serialized(replace_runs(s, c, m, sep)).len() <= serialized(s).len(),
{
    lemma_repl_acc_len(s, 0, Seq::empty(), Seq::empty(), false, c, m, sep);
    assert(s.skip(0) =~= s);
    assert(serialized(Seq::<TokenV>::empty()) =~= Seq::<char>::empty());
    assert(pending(Seq::<TokenV>::empty(), Seq::<Seq<char>>::empty()) == Option::<Seq<
        Seq<char>,
    >>::None);
    let k = count_runs(runs_of(s), c);
    assert(decl_text(m, c, sep).len() + 1 + k * m.len() < k * inline_len(c));
}

proof fn lemma_runs_acc_shift(s: Seq<TokenV>, i: int, cur: Option<Seq<Seq<char>>>)
    requires
        1 <= i <= s.len(),
    ensures
        runs_acc(s, i, cur) == runs_acc(s.drop_first(), i - 1, cur),
    decreases s.len() - i,
{
    if i == s.len() {
    } else {
        assert(s.drop_first()[i - 1] == s[i]);
        if is_str_tok(s[i]) {
            let cur2 = Option::Some(
                match cur {
                    Option::Some(r) => r.push(str_content(s[i])),
                    Option::None => seq![str_content(s[i])],
                },
            );
            lemma_runs_acc_shift(s, i + 1, cur2);
        } else {
            lemma_runs_acc_shift(s, i + 1, Option::None);
        }
    }
}

proof fn lemma_runs_cons_nonstr(t: TokenV, b: Seq<TokenV>)
    requires
        !is_str_tok(t),
    ensures
        runs_of(seq![t] + b) == runs_of(b),
{
    let s = seq![t] + b;
    assert(s[0] == t);
    assert(runs_of(s) == runs_acc(s, 1, Option::None));
    if b.len() == 0 {
        assert(s.len() == 1);
    } else {
        lemma_runs_acc_shift(s, 1, Option::None);
        assert(s.drop_first() =~= b);
    }
}

proof fn lemma_runs_all_str(rt: Seq<TokenV>, rc: Seq<Seq<char>>, pre: Seq<Seq<char>>)
    requires
        run_matches(rt, rc),
    ensures
        runs_acc(rt, 0, Option::Some(pre)) == seq![pre + rc],
    decreases rt.len(),
{
    if rt.len() == 0 {
        assert(rc =~= Seq::<Seq<char>>::empty());
        assert(pre + rc =~= pre);
    } else {
        assert(is_str_tok(rt[0]));
        let rt2 = rt.drop_first();
        let rc2 = rc.drop_first();
        assert(run_matches(rt2, rc2)) by {
            assert(forall|j: int| 0 <= j < rt2.len() ==> rt2[j] == #[trigger] rt[j + 1] && rc2[j]
                == rc[j + 1]);
        }
        if rt.len() == 1 {
            assert(runs_acc(rt, 0, Option::Some(pre)) == runs_acc(
                rt,
                1,
                Option::Some(pre.push(str_content(rt[0]))),
            ));
            assert(runs_acc(rt, 1, Option::Some(pre.push(str_content(rt[0]))))
                == seq![pre.push(str_content(rt[0]))]);
            assert(pre.push(str_content(rt[0])) =~= pre + rc);
        } else {
            lemma_runs_acc_shift(rt, 1, Option::Some(pre.push(str_content(rt[0]))));
            lemma_runs_all_str(rt2, rc2, pre.push(str_content(rt[0])));
            assert(pre.push(str_content(rt[0])) + rc2 =~= pre + rc) by {
                assert(rc[0] == str_content(rt[0]));
            }
        }
    }
}

proof fn lemma_runs_run_prefix(rt: Seq<TokenV>, rc: Seq<Seq<char>>, b: Seq<TokenV>, pre: Seq<
    Seq<char>,
>)
    requires
        run_matches(rt, rc),
        b.len() >= 1,
        !is_str_tok(b[0]),
    ensures
        runs_acc(rt + b, 0, Option::Some(pre)) == seq![pre + rc] + runs_of(b),
    decreases rt.len(),
{
    let s = rt + b;
    if rt.len() == 0 {
        assert(s =~= b);
        assert(runs_acc(b, 0, Option::Some(pre)) == seq![pre] + runs_acc(b, 1, Option::None));
        if b.len() == 1 {
        } else {
            lemma_runs_acc_shift(b, 1, Option::None);
            lemma_runs_cons_nonstr(b[0], b.drop_first());
            assert(seq![b[0]] + b.drop_first() =~= b);
        }
        assert(rc =~= Seq::<Seq<char>>::empty());
        assert(pre + rc =~= pre);
        assert(runs_of(b) == runs_acc(b, 1, Option::None));
    } else {
        assert(s[0] == rt[0]);
        assert(is_str_tok(s[0]));
        let rt2 = rt.drop_first();
        let rc2 = rc.drop_first();
        assert(run_matches(rt2, rc2)) by {
            assert(forall|j: int| 0 <= j < rt2.len() ==> rt2[j] == #[trigger] rt[j + 1] && rc2[j]
                == rc[j + 1]);
        }
        lemma_runs_acc_shift(s, 1, Option::Some(pre.push(str_content(s[0]))));
        assert(s.drop_first() =~= rt2 + b);
        lemma_runs_run_prefix(rt2, rc2, b, pre.push(str_content(rt[0])));
        assert(pre.push(str_content(rt[0])) + rc2 =~= pre + rc) by {
            assert(rc[0] == str_content(rt[0]));
        }
    }
}

proof fn lemma_repl_acc_runs(
    s: Seq<TokenV>,
    i: int,
    rt: Seq<TokenV>,
    rc: Seq<Seq<char>>,
    d: bool,
    c: Seq<Seq<char>>,
    m: Seq<char>,
    sep: char,
)
    requires
        wf_tokens(s),
        0 <= i <= s.len(),
        run_matches(rt, rc),
    ensures
        runs_of(repl_acc(s, i, rt, rc, d, c, m, sep)) == runs_acc(s, i, pending(rt, rc)).filter(
            |r: Seq<Seq<char>>| r != c,
        ),
    decreases s.len() - i,
{
    reveal(Seq::filter);
    let p = |r: Seq<Seq<char>>| r != c;
    let fd = flush_run(rt, rc, d, c, m, sep);
    if i == s.len() {
        if rt.len() == 0 {
            assert(runs_of(fd.0) =~= Seq::<Seq<Seq<char>>>::empty());
            assert(runs_acc(s, i, pending(rt, rc)).filter(p) =~= Seq::<Seq<Seq<char>>>::empty());
        } else if rc == c {
            assert(forall|j: int| 0 <= j < fd.0.len() ==> !is_str_tok(#[trigger] fd.0[j]));
            assert(runs_of(fd.0) =~= Seq::<Seq<Seq<char>>>::empty()) by {
                if fd.0.len() == 3 {
                    assert(fd.0 =~= seq![fd.0[0]] + (seq![fd.0[1]] + seq![fd.0[2]]));
                    lemma_runs_cons_nonstr(fd.0[0], seq![fd.0[1]] + seq![fd.0[2]]);
                    assert(seq![fd.0[1]] + seq![fd.0[2]] =~= seq![fd.0[1]] + seq![fd.0[2]]);
                    lemma_runs_cons_nonstr(fd.0[1], seq![fd.0[2]]);
                    lemma_runs_cons_nonstr(fd.0[2], Seq::<TokenV>::empty());
                    assert(seq![fd.0[2]] + Seq::<TokenV>::empty() =~= seq![fd.0[2]]);
                    assert(runs_of(Seq::<TokenV>::empty()) =~= Seq::<Seq<Seq<char>>>::empty());
                } else {
                    lemma_runs_cons_nonstr(fd.0[0], Seq::<TokenV>::empty());
                    assert(seq![fd.0[0]] + Seq::<TokenV>::empty() =~= fd.0);
                    assert(runs_of(Seq::<TokenV>::empty()) =~= Seq::<Seq<Seq<char>>>::empty());
                }
            }
            assert(runs_acc(s, i, pending(rt, rc)) =~= seq![rc]);
            assert(seq![rc].drop_last() =~= Seq::<Seq<Seq<char>>>::empty());
            assert(seq![rc].last() == rc);
            assert(!p(rc));
            assert(seq![rc].drop_last().filter(p) =~= Seq::<Seq<Seq<char>>>::empty());
            assert(seq![rc].filter(p) =~= Seq::<Seq<Seq<char>>>::empty());
        } else {
            lemma_runs_all_str(rt, rc, Seq::empty());
            assert(runs_of(rt) == runs_acc(rt, 0, Option::None)) by {
                assert(is_str_tok(rt[0]));
                assert(runs_acc(rt, 0, Option::None) == runs_acc(
                    rt,
                    1,
                    Option::Some(seq![str_content(rt[0])]),
                ));
                assert(runs_acc(rt, 0, Option::Some(Seq::empty())) == runs_acc(
                    rt,
                    1,
                    Option::Some(Seq::<Seq<char>>::empty().push(str_content(rt[0]))),
                ));
                assert(Seq::<Seq<char>>::empty().push(str_content(rt[0])) =~= seq![str_content(
                    rt[0])]);
            }
            assert(Seq::<Seq<char>>::empty() + rc =~= rc);
            assert(runs_of(fd.0) =~= seq![rc]);
            assert(runs_acc(s, i, pending(rt, rc)) =~= seq![rc]);
            assert(seq![rc].drop_last() =~= Seq::<Seq<Seq<char>>>::empty());
            assert(seq![rc].last() == rc);
            assert(p(rc));
            assert(seq![rc].drop_last().filter(p) =~= Seq::<Seq<Seq<char>>>::empty());
            assert(seq![rc].filter(p) =~= seq![rc]);
        }
    } else if is_str_tok(s[i]) {
        let rt2 = rt.push(s[i]);
        let rc2 = rc.push(str_content(s[i]));
        assert(wf_token(s[i]));
        assert(run_matches(rt2, rc2)) by {
            assert(forall|j: int| 0 <= j < rt.len() ==> rt2[j] == #[trigger] rt[j] && rc2[j]
                == rc[j]);
            assert(rt2[rt.len() as int] == s[i]);
            assert(rc2[rt.len() as int] == str_content(s[i]));
        }
        lemma_repl_acc_runs(s, i + 1, rt2, rc2, d, c, m, sep);
        if rt.len() == 0 {
            assert(rc2 =~= seq![str_content(s[i])]);
            assert(runs_acc(s, i, pending(rt, rc)) == runs_acc(s, i + 1, pending(rt2, rc2)));
        } else {
            assert(runs_acc(s, i, pending(rt, rc)) == runs_acc(s, i + 1, pending(rt2, rc2)));
        }
    } else {
        let rest = repl_acc(s, i + 1, Seq::empty(), Seq::empty(), fd.1, c, m, sep);
        lemma_repl_acc_runs(s, i + 1, Seq::empty(), Seq::empty(), fd.1, c, m, sep);
        let tail = seq![s[i]] + rest;
        lemma_runs_cons_nonstr(s[i], rest);
        let racc = runs_acc(s, i + 1, Option::None);
        assert(repl_acc(s, i, rt, rc, d, c, m, sep) =~= fd.0 + tail);
        if rt.len() == 0 {
            assert(fd.0 + tail =~= tail);
            assert(runs_acc(s, i, pending(rt, rc)) == racc);
            assert(repl_acc(s, i, rt, rc, d, c, m, sep) =~= tail);
        } else if rc == c {
            assert(forall|j: int| 0 <= j < fd.0.len() ==> !is_str_tok(#[trigger] fd.0[j]));
            assert(runs_of(fd.0 + tail) =~= runs_of(tail)) by {
                if fd.0.len() == 3 {
                    assert(fd.0 + tail =~= seq![fd.0[0]] + (seq![fd.0[1]] + (seq![fd.0[2]]
                        + tail)));
                    lemma_runs_cons_nonstr(fd.0[2], tail);
                    lemma_runs_cons_nonstr(fd.0[1], seq![fd.0[2]] + tail);
                    lemma_runs_cons_nonstr(fd.0[0], seq![fd.0[1]] + (seq![fd.0[2]] + tail));
                } else {
                    assert(fd.0 + tail =~= seq![fd.0[0]] + tail);
                    lemma_runs_cons_nonstr(fd.0[0], tail);
                }
            }
            assert(runs_acc(s, i, pending(rt, rc)) =~= seq![rc] + racc);
            Seq::filter_distributes_over_add(seq![rc], racc, p);
            assert(seq![rc].drop_last() =~= Seq::<Seq<Seq<char>>>::empty());
            assert(seq![rc].last() == rc);
            assert(!p(rc));
            assert(seq![rc].drop_last().filter(p) =~= Seq::<Seq<Seq<char>>>::empty());
            assert(seq![rc].filter(p) =~= Seq::<Seq<Seq<char>>>::empty());
            assert(Seq::<Seq<Seq<char>>>::empty() + racc.filter(p) =~= racc.filter(p));
        } else {
            lemma_runs_run_prefix(rt, rc, tail, Seq::empty());
            assert(fd.0 + tail =~= rt + tail);
            assert(Seq::<Seq<char>>::empty() + rc =~= rc);
            assert(runs_of(rt + tail) == runs_acc(rt + tail, 0, Option::None)) by {
                assert(is_str_tok((rt + tail)[0]));
                assert((rt + tail)[0] == rt[0]);
                assert(runs_acc(rt + tail, 0, Option::None) == runs_acc(
                    rt + tail,
                    1,
                    Option::Some(seq![str_content(rt[0])]),
                ));
                assert(runs_acc(rt + tail, 0, Option::Some(Seq::empty())) == runs_acc(
                    rt + tail,
                    1,
                    Option::Some(Seq::<Seq<char>>::empty().push(str_content(rt[0]))),
                ));
                assert(Seq::<Seq<char>>::empty().push(str_content(rt[0])) =~= seq![str_content(
                    rt[0])]);
            }
            assert(runs_of(fd.0 + tail) =~= seq![rc] + runs_of(tail));
            assert(runs_acc(s, i, pending(rt, rc)) =~= seq![rc] + racc);
            Seq::filter_distributes_over_add(seq![rc], racc, p);
            assert(seq![rc].drop_last() =~= Seq::<Seq<Seq<char>>>::empty());
            assert(seq![rc].last() == rc);
            assert(p(rc));
            assert(seq![rc].drop_last().filter(p) =~= Seq::<Seq<Seq<char>>>::empty());
            assert(seq![rc].filter(p) =~= seq![rc]);
        }
    }
}

/// Law: replacement removes exactly the runs with the packed contents and
/// leaves every other run intact, in order.
pub proof fn lemma_replace_runs_runs(s: Seq<TokenV>, c: Seq<Seq<char>>, m: Seq<char>, sep: char)
    requires
        wf_tokens(s),
    ensures
        runs_of(replace_runs(s, c, m, sep)) == runs_of(s).filter(
            |r: Seq<Seq<char>>| r != c,
        ),
{
    lemma_repl_acc_runs(s, 0, Seq::empty(), Seq::empty(), false, c, m, sep);
}

proof fn lemma_wf_concat(a: Seq<TokenV>, b: Seq<TokenV>)
    requires
        wf_tokens(a),
        wf_tokens(b),
    ensures
        wf_tokens(a + b),
{
    assert forall|i: int| 0 <= i < (a + b).len() implies wf_token(#[trigger] (a + b)[i]) by {
        if i < a.len() {
            assert((a + b)[i] == a[i]);
        } else {
            assert((a + b)[i] == b[i - a.len()]);
        }
    }
}

proof fn lemma_flush_wf(
    rt: Seq<TokenV>,
    rc: Seq<Seq<char>>,
    d: bool,
    c: Seq<Seq<char>>,
    m: Seq<char>,
    sep: char,
)
    requires
        wf_tokens(rt),
    ensures
        wf_tokens(flush_run(rt, rc, d, c, m, sep).0),
{
    let fd = flush_run(rt, rc, d, c, m, sep);
    assert(forall|i: int| 0 <= i < fd.0.len() ==> (fd.0[i] == rt[i] || !(#[trigger] fd.0[i]
        is Str)));
}

proof fn lemma_repl_acc_wf(
    s: Seq<TokenV>,
    i: int,
    rt: Seq<TokenV>,
    rc: Seq<Seq<char>>,
    d: bool,
    c: Seq<Seq<char>>,
    m: Seq<char>,
    sep: char,
)
    requires
        wf_tokens(s),
        0 <= i <= s.len(),
        wf_tokens(rt),
    ensures
        wf_tokens(repl_acc(s, i, rt, rc, d, c, m, sep)),
    decreases s.len() - i,
{
    if i == s.len() {
        lemma_flush_wf(rt, rc, d, c, m, sep);
    } else if is_str_tok(s[i]) {
        assert(wf_token(s[i]));
        assert(wf_tokens(rt.push(s[i]))) by {
            assert(forall|j: int| 0 <= j < rt.len() ==> rt.push(s[i])[j] == #[trigger] rt[j]);
            assert(rt.push(s[i])[rt.len() as int] == s[i]);
        }
        lemma_repl_acc_wf(s, i + 1, rt.push(s[i]), rc.push(str_content(s[i])), d, c, m, sep);
    } else {
        let fd = flush_run(rt, rc, d, c, m, sep);
        lemma_flush_wf(rt, rc, d, c, m, sep);
        lemma_repl_acc_wf(s, i + 1, Seq::empty(), Seq::empty(), fd.1, c, m, sep);
        assert(wf_token(s[i]));
        assert(wf_tokens(seq![s[i]])) by {
            assert(seq![s[i]][0] == s[i]);
        }
        lemma_wf_concat(fd.0, seq![s[i]]);
        lemma_wf_concat(fd.0 + seq![s[i]], repl_acc(s, i + 1, Seq::empty(), Seq::empty(), fd.1,
            c, m, sep));
    }
}

/// Replacement keeps every token well formed.
pub proof fn lemma_replace_runs_wf(s: Seq<TokenV>, c: Seq<Seq<char>>, m: Seq<char>, sep: char)
    requires
        wf_tokens(s),
    ensures
        wf_tokens(replace_runs(s, c, m, sep)),
{
    lemma_repl_acc_wf(s, 0, Seq::empty(), Seq::empty(), false, c, m, sep);
}

/// One pass over the distinct run contents, in order of first appearance:
/// each content is held against the sequence as it stands; a qualifying one
/// is replaced everywhere and takes the next variable name.
pub open spec fn agg_loop(
    s: Seq<TokenV>,
    fs: Seq<Seq<Seq<char>>>,
    base: Seq<char>,
    idx: nat,
    sep: char,
) -> Seq<TokenV>
    decreases fs.len(),
{
    if fs.len() == 0 {
        s
    } else {
        let m = var_name(base, idx);
        if qualifies(fs[0], count_runs(runs_of(s), fs[0]), m, sep) {
            agg_loop(replace_runs(s, fs[0], m, sep), fs.drop_first(), base, idx + 1, sep)
        } else {
            agg_loop(s, fs.drop_first(), base, idx, sep)
        }
    }
}

/// The whole aggregation stage.
pub open spec fn aggregated(s: Seq<TokenV>, base: Seq<char>, sep: char) -> Seq<TokenV> {
    agg_loop(s, firsts(runs_of(s)), base, 0, sep)
}

proof fn lemma_agg_loop_skip(s: Seq<TokenV>, fs: Seq<Seq<Seq<char>>>, base: Seq<char>, sep: char)
    requires
        forall|j: int|
            0 <= j < fs.len() ==> !qualifies(
                #[trigger] fs[j],
                count_runs(runs_of(s), fs[j]),
                var_name(base, 0),
                sep,
            ),
    ensures
        agg_loop(s, fs, base, 0, sep) == s,
    decreases fs.len(),
{
    if fs.len() == 0 {
    } else {
        assert(forall|j: int| 0 <= j < fs.drop_first().len() ==> fs.drop_first()[j]
            == #[trigger] fs[j + 1]);
        lemma_agg_loop_skip(s, fs.drop_first(), base, sep);
    }
}

proof fn lemma_agg_loop_no_growth(
    s: Seq<TokenV>,
    fs: Seq<Seq<Seq<char>>>,
    base: Seq<char>,
    idx: nat,
    sep: char,
)
    requires
        wf_tokens(s),
    ensures
        serialized(agg_loop(s, fs, base, idx, sep)).len() <= serialized(s).len(),
    decreases fs.len(),
{
    if fs.len() == 0 {
    } else {
        let m = var_name(base, idx);
        if qualifies(fs[0], count_runs(runs_of(s), fs[0]), m, sep) {
            lemma_replace_runs_no_growth(s, fs[0], m, sep);
            lemma_replace_runs_wf(s, fs[0], m, sep);
            lemma_agg_loop_no_growth(replace_runs(s, fs[0], m, sep), fs.drop_first(), base,
                idx + 1, sep);
        } else {
            lemma_agg_loop_no_growth(s, fs.drop_first(), base, idx, sep);
        }
    }
}

/// Law (byte-size): aggregation never grows the serialized text, since a
/// run content is packed only where packing is a net win.
pub proof fn lemma_aggregate_no_growth(s: Seq<TokenV>, base: Seq<char>, sep: char)
    requires
        wf_tokens(s),
    ensures
        serialized(aggregated(s, base, sep)).len() <= serialized(s).len(),
{
    lemma_agg_loop_no_growth(s, firsts(runs_of(s)), base, 0, sep);
}

/// If no run content qualifies, the sequence comes back unchanged.
pub proof fn lemma_no_packing_unchanged(s: Seq<TokenV>, base: Seq<char>, sep: char)
    requires
        forall|j: int|
            0 <= j < firsts(runs_of(s)).len() ==> !qualifies(
                #[trigger] firsts(runs_of(s))[j],
                count_runs(runs_of(s), firsts(runs_of(s))[j]),
                var_name(base, 0),
                sep,
            ),
    ensures
        aggregated(s, base, sep) == s,
{
    lemma_agg_loop_skip(s, firsts(runs_of(s)), base, sep);
}

/// A string token's unquoted content.
fn content_of(t: &Token) -> (r: Vec<char>)
    ensures
        r@ == str_content(t@),
{
    match t {
        Token::Str(s) => {
            let mut out: Vec<char> = Vec::new();
            if s.len() < 2 {
                proof {
                    assert(out@ =~= str_content(t@));
                }
                return out;
            }
            let mut j: usize = 1;
            while j < s.len() - 1
                invariant
                    s@.len() >= 2,
                    1 <= j <= s@.len() - 1,
                    out@ == s@.subrange(1, j as int),
                decreases s.len() - j,
            {
                out.push(s[j]);
                proof {
                    assert(s@.subrange(1, j + 1) =~= s@.subrange(1, j as int).push(s@[j as int]));
                }
                j += 1;
            }
            proof {
                assert(out@ =~= unquoted(s@));
            }
            out
        },
        _ => Vec::new(),
    }
}

/// The contents of every maximal string run, in order.
fn collect_runs(ts: &Vec<Token>) -> (r: Vec<Vec<Vec<char>>>)
    ensures
        r.deep_view() == runs_of(ts.deep_view()),
{
    let mut out: Vec<Vec<Vec<char>>> = Vec::new();
    let mut cur: Option<Vec<Vec<char>>> = Option::None;
    let mut i: usize = 0;
    proof {
        assert(out.deep_view() + runs_acc(ts.deep_view(), 0, cur.deep_view()) =~= runs_of(
            ts.deep_view()));
    }
    while i < ts.len()
        invariant
            i <= ts@.len(),
            ts@.len() == ts.deep_view().len(),
            runs_of(ts.deep_view()) == out.deep_view() + runs_acc(
                ts.deep_view(),
                i as int,
                cur.deep_view(),
            ),
        decreases ts.len() - i,
    {
        let ghost dv = ts.deep_view();
        let ghost pre_out = out.deep_view();
        let ghost pre_cur = cur.deep_view();
        proof {
            assert(dv[i as int] == ts@[i as int]@);
        }
        let is_str = match &ts[i] {
            Token::Str(_) => true,
            _ => false,
        };
        if is_str {
            let content = content_of(&ts[i]);
            let prev = cur;
            match prev {
                Option::Some(mut v) => {
                    let ghost vdv = v.deep_view();
                    v.push(content);
                    proof {
                        assert(v.deep_view() =~~= vdv.push(str_content(dv[i as int])));
                    }
                    cur = Option::Some(v);
                },
                Option::None => {
                    let mut v: Vec<Vec<char>> = Vec::new();
                    v.push(content);
                    proof {
                        assert(v.deep_view() =~~= seq![str_content(dv[i as int])]);
                    }
                    cur = Option::Some(v);
                },
            }
            proof {
                assert(runs_acc(dv, i as int, pre_cur) == runs_acc(dv, i + 1, cur.deep_view()));
            }
        } else {
            let prev = cur;
            match prev {
                Option::Some(v) => {
                    let ghost vdv = v.deep_view();
                    out.push(v);
                    cur = Option::None;
                    proof {
                        assert(out.deep_view() =~= pre_out.push(vdv));
                        assert(runs_acc(dv, i as int, pre_cur) =~= seq![vdv] + runs_acc(
                            dv,
                            i + 1,
                            cur.deep_view(),
                        ));
                        assert(out.deep_view() + runs_acc(dv, i + 1, cur.deep_view()) =~= pre_out
                            + runs_acc(dv, i as int, pre_cur));
                    }
                },
                Option::None => {
                    cur = Option::None;
                    proof {
                        assert(runs_acc(dv, i as int, pre_cur) == runs_acc(
                            dv,
                            i + 1,
                            cur.deep_view(),
                        ));
                    }
                },
            }
        }
        i += 1;
    }
    let last = cur;
    match last {
        Option::Some(v) => {
            let ghost vdv = v.deep_view();
            let ghost pre_out = out.deep_view();
            out.push(v);
            proof {
                assert(out.deep_view() =~= pre_out.push(vdv));
                assert(runs_acc(ts.deep_view(), ts@.len() as int, Option::Some(vdv))
                    =~= seq![vdv]);
                assert(out.deep_view() =~= runs_of(ts.deep_view()));
            }
            out
        },
        Option::None => {
            proof {
                assert(runs_acc(
                    ts.deep_view(),
                    ts@.len() as int,
                    Option::<Seq<Seq<char>>>::None,
                ) =~= Seq::<Seq<Seq<char>>>::empty());
                assert(out.deep_view() + Seq::<Seq<Seq<char>>>::empty() =~= out.deep_view());
            }
            out
        },
    }
}

/// Emits a finished run, per `flush_run`; returns the new declared flag.
fn flush_exec(
    out: &mut Vec<Token>,
    run_toks: &Vec<Token>,
    run_c: &Vec<Vec<char>>,
    declared: bool,
    c: &Vec<Vec<char>>,
    m: &Vec<char>,
    sep: char,
) -> (r: bool)
    ensures
        final(out).deep_view() == old(out).deep_view() + flush_run(
            run_toks.deep_view(),
            run_c.deep_view(),
            declared,
            c.deep_view(),
            m@,
            sep,
        ).0,
        r == flush_run(
            run_toks.deep_view(),
            run_c.deep_view(),
            declared,
            c.deep_view(),
            m@,
            sep,
        ).1,
{
    let ghost fd = flush_run(run_toks.deep_view(), run_c.deep_view(), declared, c.deep_view(),
        m@, sep);
    if run_toks.len() == 0 {
        proof {
            assert(old(out).deep_view() + fd.0 =~= old(out).deep_view());
        }
        declared
    } else if contents_eq(run_c, c) {
        let ghost pre = out.deep_view();
        if !declared {
            let joined = join_chars(c, sep);
            let decl = decl_text_exec(m, &joined, sep, Ghost(c.deep_view()));
            out.push(Token::Other(decl));
            out.push(Token::Char('\n'));
            out.push(Token::Other(clone_chars(m)));
            proof {
                assert(out.deep_view() =~= pre + fd.0);
            }
        } else {
            out.push(Token::Other(clone_chars(m)));
            proof {
                assert(out.deep_view() =~= pre + fd.0);
            }
        }
        true
    } else {
        let mut j: usize = 0;
        let ghost pre = out.deep_view();
        while j < run_toks.len()
            invariant
                j <= run_toks@.len(),
                run_toks@.len() == run_toks.deep_view().len(),
                out.deep_view() == pre + run_toks.deep_view().take(j as int),
            decreases run_toks.len() - j,
        {
            let ghost mid = out.deep_view();
            out.push(clone_token(&run_toks[j]));
            proof {
                let rdv = run_toks.deep_view();
                assert(rdv.take(j + 1) =~= rdv.take(j as int).push(rdv[j as int]));
                assert(out.deep_view() =~= mid.push(rdv[j as int]));
                assert(out.deep_view() =~= pre + rdv.take(j + 1));
            }
            j += 1;
        }
        proof {
            assert(run_toks.deep_view().take(run_toks.deep_view().len() as int)
                =~= run_toks.deep_view());
        }
        declared
    }
}

/// Replaces every maximal run with contents `c` by a reference to `m`, the
/// first one preceded by the declaration and a line break.
fn replace_runs_exec(ts: &Vec<Token>, c: &Vec<Vec<char>>, m: &Vec<char>, sep: char) -> (r: Vec<
    Token,
>)
    ensures
        r.deep_view() == replace_runs(ts.deep_view(), c.deep_view(), m@, sep),
{
    let mut out: Vec<Token> = Vec::new();
    let mut run_toks: Vec<Token> = Vec::new();
    let mut run_c: Vec<Vec<char>> = Vec::new();
    let mut declared = false;
    let mut i: usize = 0;
    proof {
        assert(run_toks.deep_view() =~= Seq::<TokenV>::empty());
        assert(run_c.deep_view() =~~= Seq::<Seq<char>>::empty());
        assert(out.deep_view() + repl_acc(ts.deep_view(), 0, run_toks.deep_view(),
            run_c.deep_view(), declared, c.deep_view(), m@, sep) =~= replace_runs(
            ts.deep_view(), c.deep_view(), m@, sep));
    }
    while i < ts.len()
        invariant
            i <= ts@.len(),
            ts@.len() == ts.deep_view().len(),
            replace_runs(ts.deep_view(), c.deep_view(), m@, sep) == out.deep_view() + repl_acc(
                ts.deep_view(),
                i as int,
                run_toks.deep_view(),
                run_c.deep_view(),
                declared,
                c.deep_view(),
                m@,
                sep,
            ),
        decreases ts.len() - i,
    {
        let ghost dv = ts.deep_view();
        let ghost pre_out = out.deep_view();
        let ghost pre_rt = run_toks.deep_view();
        let ghost pre_rc = run_c.deep_view();
        let ghost pre_d = declared;
        proof {
            assert(dv[i as int] == ts@[i as int]@);
        }
        let is_str = match &ts[i] {
            Token::Str(_) => true,
            _ => false,
        };
        if is_str {
            run_toks.push(clone_token(&ts[i]));
            run_c.push(content_of(&ts[i]));
            proof {
                assert(run_toks.deep_view() =~= pre_rt.push(dv[i as int]));
                assert(run_c.deep_view() =~~= pre_rc.push(str_content(dv[i as int])));
            }
        } else {
            let d2 = flush_exec(&mut out, &run_toks, &run_c, declared, c, m, sep);
            out.push(clone_token(&ts[i]));
            run_toks = Vec::new();
            run_c = Vec::new();
            declared = d2;
            proof {
                let fd = flush_run(pre_rt, pre_rc, pre_d, c.deep_view(), m@, sep);
                assert(run_toks.deep_view() =~= Seq::<TokenV>::empty());
                assert(run_c.deep_view() =~= Seq::<Seq<char>>::empty());
                assert(out.deep_view() =~= (pre_out + fd.0).push(dv[i as int]));
                assert(repl_acc(dv, i as int, pre_rt, pre_rc, pre_d, c.deep_view(), m@, sep)
                    =~= fd.0 + seq![dv[i as int]] + repl_acc(dv, i + 1, Seq::empty(),
                    Seq::empty(), fd.1, c.deep_view(), m@, sep));
                assert(out.deep_view() + repl_acc(dv, i + 1, run_toks.deep_view(),
                    run_c.deep_view(), declared, c.deep_view(), m@, sep) =~= pre_out + repl_acc(
                    dv, i as int, pre_rt, pre_rc, pre_d, c.deep_view(), m@, sep));
            }
        }
        i += 1;
    }
    let ghost pre_out = out.deep_view();
    let ghost pre_rt = run_toks.deep_view();
    let ghost pre_rc = run_c.deep_view();
    let ghost pre_d = declared;
    let _ = flush_exec(&mut out, &run_toks, &run_c, declared, c, m, sep);
    proof {
        assert(repl_acc(ts.deep_view(), ts@.len() as int, pre_rt, pre_rc, pre_d, c.deep_view(),
            m@, sep) == flush_run(pre_rt, pre_rc, pre_d, c.deep_view(), m@, sep).0);
    }
    out
}

/// String aggregator: packs every qualifying run, leaving the sequence
/// unchanged when nothing qualifies.
pub fn aggregate_tokens(ts: &Vec<Token>, base: &Vec<char>, sep: char) -> (r: Vec<Token>)
    ensures
        r.deep_view() == aggregated(ts.deep_view(), base@, sep),
{
    let runs = collect_runs(ts);
    let fs = firsts_exec(&runs);
    let mut out: Vec<Token> = Vec::new();
    let mut i: usize = 0;
    while i < ts.len()
        invariant
            i <= ts@.len(),
            ts@.len() == ts.deep_view().len(),
            out.deep_view() == ts.deep_view().take(i as int),
        decreases ts.len() - i,
    {
        let ghost pre = out.deep_view();
        out.push(clone_token(&ts[i]));
        proof {
            let dv = ts.deep_view();
            assert(dv.take(i + 1) =~= dv.take(i as int).push(dv[i as int]));
            assert(out.deep_view() =~= pre.push(dv[i as int]));
        }
        i += 1;
    }
    proof {
        assert(ts.deep_view().take(ts.deep_view().len() as int) =~= ts.deep_view());
    }
    let ghost dv = ts.deep_view();
    let ghost fsdv = fs.deep_view();
    let mut j: usize = 0;
    let mut idx: usize = 0;
    proof {
        assert(fsdv.skip(0) =~= fsdv);
        assert(runs.deep_view() == runs_of(dv));
        assert(fsdv == firsts(runs_of(dv)));
    }
    while j < fs.len()
        invariant
            j <= fs@.len(),
            fs@.len() == fsdv.len(),
            fsdv == fs.deep_view(),
            idx <= j,
            aggregated(dv, base@, sep) == agg_loop(
                out.deep_view(),
                fsdv.skip(j as int),
                base@,
                idx as nat,
                sep,
            ),
        decreases fs.len() - j,
    {
        proof {
            assert(fsdv.skip(j as int)[0] == fsdv[j as int]);
            assert(fsdv.skip(j as int).drop_first() =~= fsdv.skip(j + 1));
            assert(fsdv[j as int] == fs@[j as int].deep_view());
        }
        let cur_runs = collect_runs(&out);
        let k = count_runs_exec(&cur_runs, &fs[j]);
        let name = var_name_exec(base, idx);
        if qualifies_exec(&fs[j], k, &name, sep) {
            let next = replace_runs_exec(&out, &fs[j], &name, sep);
            out = next;
            idx += 1;
        }
        j += 1;
    }
    proof {
        assert(fsdv.skip(fsdv.len() as int) =~= Seq::<Seq<Seq<char>>>::empty());
    }
    out
}

} // verus!
