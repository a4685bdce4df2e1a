use vstd::prelude::*;
use vstd::string::{StrSliceExecFns, StringExecFns};

use crate::task::{lemma_tasks_deep_view, Task, TaskError, TaskView};

verus! {

// ---------------------------------------------------------------------------
// The storage format, as specification-level character sequences.
//
// A collection is stored as a pretty-printed array of records with the
// fixed field order `id`, `title`, `description`:
//
//     [
//       {
//         "id": 1,
//         "title": "Buy milk",
//         "description": "2%"
//       }
//     ]
//
// The empty collection is stored as `[]`.
// ---------------------------------------------------------------------------

/// The canonical digit character for a value below ten.
pub open spec fn digit_char(d: u32) -> char {
    if d == 0 {
        '0'
    } else if d == 1 {
        '1'
    } else if d == 2 {
        '2'
    } else if d == 3 {
        '3'
    } else if d == 4 {
        '4'
    } else if d == 5 {
        '5'
    } else if d == 6 {
        '6'
    } else if d == 7 {
        '7'
    } else if d == 8 {
        '8'
    } else {
        '9'
    }
}

/// The numeric value of a digit character; ten for anything else.
pub open spec fn digit_val(c: char) -> u32 {
    if c == '0' {
        0
    } else if c == '1' {
        1
    } else if c == '2' {
        2
    } else if c == '3' {
        3
    } else if c == '4' {
        4
    } else if c == '5' {
        5
    } else if c == '6' {
        6
    } else if c == '7' {
        7
    } else if c == '8' {
        8
    } else if c == '9' {
        9
    } else {
        10
    }
}

pub open spec fn is_digit(c: char) -> bool {
    digit_val(c) < 10
}

/// The canonical decimal spelling of `n`: most significant digit first,
/// no leading zeros.
pub open spec fn dec_of(n: u32) -> Seq<char>
    decreases n,
{
    if n < 10 {
        seq![digit_char(n)]
    } else {
        dec_of(n / 10).push(digit_char(n % 10))
    }
}

/// How one character of a text field is written inside a quoted string:
/// the quote, the backslash and the three common control characters get a
/// backslash escape, everything else stands for itself.
pub open spec fn esc_char(c: char) -> Seq<char> {
    if c == '"' {
        seq!['\\', '"']
    } else if c == '\\' {
        seq!['\\', '\\']
    } else if c == '\n' {
        seq!['\\', 'n']
    } else if c == '\r' {
        seq!['\\', 'r']
    } else if c == '\t' {
        seq!['\\', 't']
    } else {
        seq![c]
    }
}

/// A whole text field, character by character.
pub open spec fn esc_str(s: Seq<char>) -> Seq<char>
    decreases s.len(),
{
    if s.len() == 0 {
        Seq::empty()
    } else {
        esc_char(s[0]) + esc_str(s.drop_first())
    }
}

pub open spec fn lit_empty() -> Seq<char> {
    "[]"@
}

pub open spec fn lit_open() -> Seq<char> {
    "[\n"@
}

pub open spec fn lit_close() -> Seq<char> {
    "\n]"@
}

pub open spec fn lit_sep() -> Seq<char> {
    ",\n"@
}

pub open spec fn lit_task_a() -> Seq<char> {
    "  {\n    \"id\": "@
}

pub open spec fn lit_task_b() -> Seq<char> {
    ",\n    \"title\": \""@
}

pub open spec fn lit_task_c() -> Seq<char> {
    ",\n    \"description\": \""@
}

pub open spec fn lit_task_d() -> Seq<char> {
    "\n  }"@
}

/// One record. The closing quote of each text field is written right after
/// the escaped field.
pub open spec fn enc_task(t: TaskView) -> Seq<char> {
    lit_task_a() + dec_of(t.id) + lit_task_b() + esc_str(t.title).push('"') + lit_task_c()
        + esc_str(t.description).push('"') + lit_task_d()
}

/// A non-empty run of records, separated by `,\n`.
pub open spec fn enc_list(ts: Seq<TaskView>) -> Seq<char>
    decreases ts.len(),
{
    if ts.len() <= 1 {
        enc_task(ts[0])
    } else {
        enc_task(ts[0]) + lit_sep() + enc_list(ts.drop_first())
    }
}

/// A run of records each followed by the separator.
pub open spec fn enc_pre(ts: Seq<TaskView>) -> Seq<char>
    decreases ts.len(),
{
    if ts.len() == 0 {
        Seq::empty()
    } else {
        enc_task(ts[0]) + lit_sep() + enc_pre(ts.drop_first())
    }
}

/// The stored text of a whole collection.
pub open spec fn enc_tasks(ts: Seq<TaskView>) -> Seq<char> {
    if ts.len() == 0 {
        lit_empty()
    } else {
        lit_open() + enc_list(ts) + lit_close()
    }
}

// ---------------------------------------------------------------------------
// Format lemmas.
// ---------------------------------------------------------------------------

/// Escaping commutes with appending one character.
pub proof fn lemma_esc_str_push(s: Seq<char>, c: char)
    ensures
        esc_str(s.push(c)) == esc_str(s) + esc_char(c),
    decreases s.len(),
{
    if s.len() == 0 {
        assert(s.push(c)[0] == c);
        assert(s.push(c).drop_first() =~= Seq::<char>::empty());
        assert(esc_str(s.push(c)) == esc_char(c) + esc_str(Seq::<char>::empty()));
        assert(esc_char(c) + Seq::<char>::empty() =~= esc_char(c));
        assert(esc_str(s) + esc_char(c) =~= esc_char(c));
    } else {
        assert(s.push(c)[0] == s[0]);
        assert(s.push(c).drop_first() =~= s.drop_first().push(c));
        lemma_esc_str_push(s.drop_first(), c);
        assert(esc_char(s[0]) + (esc_str(s.drop_first()) + esc_char(c)) =~= (esc_char(s[0])
            + esc_str(s.drop_first())) + esc_char(c));
    }
}

/// A record run followed by one more record is a non-empty record list.
pub proof fn lemma_enc_list_snoc(ts: Seq<TaskView>, t: TaskView)
    ensures
        enc_list(ts.push(t)) == enc_pre(ts) + enc_task(t),
    decreases ts.len(),
{
    if ts.len() == 0 {
        assert(ts.push(t)[0] == t);
        assert(enc_list(ts.push(t)) == enc_task(t));
        assert(enc_pre(ts) + enc_task(t) =~= enc_task(t));
    } else {
        assert(ts.push(t)[0] == ts[0]);
        assert(ts.push(t).drop_first() =~= ts.drop_first().push(t));
        lemma_enc_list_snoc(ts.drop_first(), t);
        if ts.len() == 1 {
            assert(ts.drop_first().len() == 0);
            assert(enc_list(ts.push(t)) == enc_task(ts[0]) + lit_sep() + enc_task(t));
            assert(enc_pre(ts) + enc_task(t) =~= enc_task(ts[0]) + lit_sep() + enc_task(t));
        } else {
            assert(enc_list(ts.push(t)) == enc_task(ts[0]) + lit_sep() + (enc_pre(ts.drop_first())
                + enc_task(t)));
            assert(enc_task(ts[0]) + lit_sep() + (enc_pre(ts.drop_first()) + enc_task(t)) =~= (
            enc_task(ts[0]) + lit_sep() + enc_pre(ts.drop_first())) + enc_task(t));
            assert(enc_pre(ts) =~= enc_task(ts[0]) + lit_sep() + enc_pre(ts.drop_first()));
        }
    }
}

/// Extending a record run by one record and its separator.
pub proof fn lemma_enc_pre_snoc(ts: Seq<TaskView>, t: TaskView)
    ensures
        enc_pre(ts.push(t)) == enc_pre(ts) + enc_task(t) + lit_sep(),
    decreases ts.len(),
{
    if ts.len() == 0 {
        assert(ts.push(t)[0] == t);
        assert(ts.push(t).drop_first() =~= Seq::<TaskView>::empty());
        assert(enc_pre(ts.push(t)) == enc_task(t) + lit_sep() + enc_pre(
            Seq::<TaskView>::empty(),
        ));
        assert(enc_task(t) + lit_sep() + enc_pre(Seq::<TaskView>::empty()) =~= enc_pre(ts)
            + enc_task(t) + lit_sep());
    } else {
        assert(ts.push(t)[0] == ts[0]);
        assert(ts.push(t).drop_first() =~= ts.drop_first().push(t));
        lemma_enc_pre_snoc(ts.drop_first(), t);
        assert(enc_pre(ts.push(t)) == enc_task(ts[0]) + lit_sep() + (enc_pre(ts.drop_first())
            + enc_task(t) + lit_sep()));
        assert(enc_task(ts[0]) + lit_sep() + (enc_pre(ts.drop_first()) + enc_task(t) + lit_sep())
            =~= (enc_task(ts[0]) + lit_sep() + enc_pre(ts.drop_first())) + enc_task(t)
            + lit_sep());
        assert(enc_pre(ts) =~= enc_task(ts[0]) + lit_sep() + enc_pre(ts.drop_first()));
    }
}

// ---------------------------------------------------------------------------
// Writing.
// ---------------------------------------------------------------------------

/// Relies on `String::push` from std: it appends exactly the given
/// character to the end of the string.
#[verifier::external_body]
fn push_char(s: &mut String, c: char)
    ensures
        final(s)@ == old(s)@.push(c),
{
    s.push(c);
}

/// The digit character of a value below ten.
fn digit_to_char(d: u32) -> (c: char)
    requires
        d < 10,
    ensures
        c == digit_char(d),
{
    if d == 0 {
        '0'
    } else if d == 1 {
        '1'
    } else if d == 2 {
        '2'
    } else if d == 3 {
        '3'
    } else if d == 4 {
        '4'
    } else if d == 5 {
        '5'
    } else if d == 6 {
        '6'
    } else if d == 7 {
        '7'
    } else if d == 8 {
        '8'
    } else {
        '9'
    }
}

/// Appends the canonical decimal spelling of `n`.
fn write_u32(out: &mut String, n: u32)
    ensures
        final(out)@ == old(out)@ + dec_of(n),
    decreases n,
{
    if n >= 10 {
        write_u32(out, n / 10);
        push_char(out, digit_to_char(n % 10));
        proof {
            assert(out@ =~= old(out)@ + dec_of(n));
        }
    } else {
        push_char(out, digit_to_char(n));
        proof {
            assert(out@ =~= old(out)@ + dec_of(n));
        }
    }
}

/// Appends a text field in escaped form.
fn write_escaped(out: &mut String, s: &str)
    ensures
        final(out)@ == old(out)@ + esc_str(s@),
{
    let ghost base = old(out)@;
    let n = s.unicode_len();
    let mut i: usize = 0;
    while i < n
        invariant
            n == s@.len(),
            i <= n,
            out@ == base + esc_str(s@.subrange(0, i as int)),
        decreases n - i,
    {
        let c = s.get_char(i);
        if c == '"' {
            push_char(out, '\\');
            push_char(out, '"');
        } else if c == '\\' {
            push_char(out, '\\');
            push_char(out, '\\');
        } else if c == '\n' {
            push_char(out, '\\');
            push_char(out, 'n');
        } else if c == '\r' {
            push_char(out, '\\');
            push_char(out, 'r');
        } else if c == '\t' {
            push_char(out, '\\');
            push_char(out, 't');
        } else {
            push_char(out, c);
        }
        proof {
            assert(s@.subrange(0, i + 1) =~= s@.subrange(0, i as int).push(s@[i as int]));
            lemma_esc_str_push(s@.subrange(0, i as int), s@[i as int]);
            assert(out@ =~= base + esc_str(s@.subrange(0, i + 1)));
        }
        i += 1;
    }
    proof {
        assert(s@.subrange(0, n as int) =~= s@);
    }
}

/// Appends one whole record.
fn write_task(out: &mut String, t: &Task)
    ensures
        final(out)@ == old(out)@ + enc_task(t@),
{
    out.append("  {\n    \"id\": ");
    write_u32(out, t.id);
    out.append(",\n    \"title\": \"");
    write_escaped(out, t.title.as_str());
    push_char(out, '"');
    out.append(",\n    \"description\": \"");
    write_escaped(out, t.description.as_str());
    push_char(out, '"');
    out.append("\n  }");
    proof {
        assert(out@ =~= old(out)@ + enc_task(t@));
    }
}

/// Renders a collection in its stored form.
pub fn tasks_to_json(tasks: &Vec<Task>) -> (r: String)
    ensures
        r@ == enc_tasks(tasks.deep_view()),
{
    let ghost dv = tasks.deep_view();
    proof {
        lemma_tasks_deep_view(*tasks);
    }
    let mut out = String::new();
    if tasks.len() == 0 {
        out.append("[]");
        return out;
    }
    out.append("[\n");
    let mut i: usize = 0;
    while i + 1 < tasks.len()
        invariant
            dv == tasks.deep_view(),
            dv.len() == tasks.len(),
            tasks.len() >= 1,
            i < tasks.len(),
            out@ == lit_open() + enc_pre(dv.subrange(0, i as int)),
            forall|k: int| 0 <= k < tasks.len() ==> dv[k] == tasks@[k]@,
        decreases tasks.len() - i,
    {
        write_task(&mut out, &tasks[i]);
        out.append(",\n");
        proof {
            assert(dv.subrange(0, i + 1) =~= dv.subrange(0, i as int).push(dv[i as int]));
            lemma_enc_pre_snoc(dv.subrange(0, i as int), dv[i as int]);
            assert(out@ =~= lit_open() + enc_pre(dv.subrange(0, i + 1)));
        }
        i += 1;
    }
    write_task(&mut out, &tasks[i]);
    out.append("\n]");
    proof {
        assert(dv.subrange(0, i as int).push(dv[i as int]) =~= dv);
        lemma_enc_list_snoc(dv.subrange(0, i as int), dv[i as int]);
        assert(out@ =~= lit_open() + enc_list(dv) + lit_close());
    }
    out
}

// ---------------------------------------------------------------------------
// Reading: positions and occurrence.
// ---------------------------------------------------------------------------

/// The sequence `p` occurs in `s` at position `i`.
pub open spec fn matches_at(s: Seq<char>, i: int, p: Seq<char>) -> bool {
    0 <= i && i + p.len() <= s.len() && s.subrange(i, i + p.len()) == p
}

/// An occurrence of a concatenation is an occurrence of each part in turn.
pub proof fn lemma_at_concat(s: Seq<char>, i: int, a: Seq<char>, b: Seq<char>)
    ensures
        matches_at(s, i, a + b) <==> (matches_at(s, i, a) && matches_at(s, i + a.len(), b)),
{
    if matches_at(s, i, a + b) {
        assert forall|k: int| 0 <= k < a.len() implies s.subrange(i, i + a.len())[k] == a[k] by {
            assert(s.subrange(i, i + (a + b).len())[k] == (a + b)[k]);
        }
        assert(s.subrange(i, i + a.len()) =~= a);
        assert forall|k: int| 0 <= k < b.len() implies s.subrange(
            i + a.len(),
            i + a.len() + b.len(),
        )[k] == b[k] by {
            assert(s.subrange(i, i + (a + b).len())[a.len() + k] == (a + b)[a.len() + k]);
        }
        assert(s.subrange(i + a.len(), i + a.len() + b.len()) =~= b);
    }
    if matches_at(s, i, a) && matches_at(s, i + a.len(), b) {
        assert forall|k: int| 0 <= k < (a + b).len() implies s.subrange(i, i + (a + b).len())[k]
            == (a + b)[k] by {
            if k < a.len() {
                assert(s.subrange(i, i + a.len())[k] == a[k]);
            } else {
                assert(s.subrange(i + a.len(), i + a.len() + b.len())[k - a.len()] == b[k
                    - a.len()]);
            }
        }
        assert(s.subrange(i, i + (a + b).len()) =~= a + b);
    }
}

/// One character of an occurrence.
pub proof fn lemma_at_index(s: Seq<char>, i: int, p: Seq<char>, k: int)
    requires
        matches_at(s, i, p),
        0 <= k < p.len(),
    ensures
        s[i + k] == p[k],
{
    assert(s.subrange(i, i + p.len())[k] == p[k]);
}

/// Checks whether the literal `lit` stands at position `i` of `s`.
fn expect_lit(s: &str, i: usize, lit: &str) -> (r: Option<usize>)
    requires
        i <= s@.len(),
    ensures
        match r {
            Some(j) => j == i + lit@.len() && matches_at(s@, i as int, lit@),
            None => !matches_at(s@, i as int, lit@),
        },
{
    let n = s.unicode_len();
    let m = lit.unicode_len();
    if m > n - i {
        return None;
    }
    let mut k: usize = 0;
    while k < m
        invariant
            n == s@.len(),
            m == lit@.len(),
            i + m <= n,
            k <= m,
            forall|p: int| 0 <= p < k ==> s@[i + p] == lit@[p],
        decreases m - k,
    {
        if s.get_char(i + k) != lit.get_char(k) {
            proof {
                if matches_at(s@, i as int, lit@) {
                    lemma_at_index(s@, i as int, lit@, k as int);
                }
            }
            return None;
        }
        k += 1;
    }
    proof {
        assert(s@.subrange(i as int, i + m as int) =~= lit@);
    }
    Some(i + m)
}

// ---------------------------------------------------------------------------
// Reading: decimal numbers.
// ---------------------------------------------------------------------------

/// The value of a digit sequence read left to right.
pub open spec fn dec_val(s: Seq<char>) -> nat
    decreases s.len(),
{
    if s.len() == 0 {
        0
    } else {
        dec_val(s.drop_last()) * 10 + (digit_val(s.last()) as nat)
    }
}

pub open spec fn all_digits(s: Seq<char>) -> bool {
    forall|k: int| 0 <= k < s.len() ==> is_digit(s[k])
}

/// The canonical spelling holds at least one digit, only digits, and starts
/// with a zero exactly for the value zero.
pub proof fn lemma_dec_of_shape(n: u32)
    ensures
        dec_of(n).len() >= 1,
        all_digits(dec_of(n)),
        dec_of(n)[0] == '0' <==> n == 0,
    decreases n,
{
    if n < 10 {
    } else {
        lemma_dec_of_shape(n / 10);
        assert(dec_of(n)[0] == dec_of(n / 10)[0]);
        assert forall|k: int| 0 <= k < dec_of(n).len() implies is_digit(dec_of(n)[k]) by {
            if k < dec_of(n / 10).len() {
                assert(dec_of(n)[k] == dec_of(n / 10)[k]);
            }
        }
    }
}

/// A digit character reads back as its value.
pub proof fn lemma_digit_char_val(d: u32)
    requires
        d < 10,
    ensures
        digit_val(digit_char(d)) == d,
{
}

/// Reading back the canonical spelling gives the value.
pub proof fn lemma_dec_val_of(n: u32)
    ensures
        dec_val(dec_of(n)) == n,
    decreases n,
{
    if n < 10 {
        lemma_digit_char_val(n);
        assert(dec_of(n).drop_last() =~= Seq::<char>::empty());
        assert(dec_of(n).last() == digit_char(n));
        assert(dec_val(Seq::<char>::empty()) == 0);
        assert(dec_val(dec_of(n)) == dec_val(dec_of(n).drop_last()) * 10 + (digit_val(
            dec_of(n).last(),
        ) as nat));
    } else {
        lemma_digit_char_val(n % 10);
        assert(dec_of(n).drop_last() =~= dec_of(n / 10));
        assert(dec_of(n).last() == digit_char(n % 10));
        lemma_dec_val_of(n / 10);
        assert(dec_val(dec_of(n)) == (n / 10) * 10 + (n % 10));
        assert(n == (n / 10) * 10 + (n % 10));
    }
}

/// A digit run without a leading zero has a positive value.
pub proof fn lemma_dec_val_pos(s: Seq<char>)
    requires
        s.len() >= 1,
        all_digits(s),
        s[0] != '0',
    ensures
        dec_val(s) >= 1,
    decreases s.len(),
{
    if s.len() == 1 {
    } else {
        assert(s.drop_last()[0] == s[0]);
        lemma_dec_val_pos(s.drop_last());
    }
}

/// A digit run without a leading zero is the canonical spelling of its value.
pub proof fn lemma_dec_canonical(s: Seq<char>, v: u32)
    requires
        s.len() >= 1,
        all_digits(s),
        s[0] != '0' || s.len() == 1,
        dec_val(s) == v,
    ensures
        s == dec_of(v),
    decreases s.len(),
{
    if s.len() == 1 {
        assert(s.drop_last() =~= Seq::<char>::empty());
        assert(dec_val(Seq::<char>::empty()) == 0);
        assert(s.last() == s[0]);
        assert(v == digit_val(s[0]) && v < 10);
        assert(s =~= dec_of(v));
    } else {
        let b = s.drop_last();
        let d = digit_val(s.last());
        assert(b[0] == s[0]);
        assert(all_digits(b)) by {
            assert(forall|k: int| 0 <= k < b.len() ==> b[k] == s[k]);
        }
        lemma_dec_val_pos(b);
        let w = dec_val(b);
        assert(v == w * 10 + d);
        assert(w * 10 <= v);
        assert(w <= w * 10);
        assert(w == v / 10 && d == v % 10) by {
            assert(v == (v / 10) * 10 + (v % 10));
            let q = v / 10 as u32;
            if w < q {
                assert(w * 10 + 10 <= q * 10);
            }
            if q < w {
                assert(q * 10 + 10 <= w * 10);
            }
        }
        assert(v >= 10);
        lemma_dec_canonical(b, (dec_val(b)) as u32);
        assert(dec_of(v) == dec_of(v / 10).push(digit_char(v % 10)));
        assert(s =~= b.push(s.last()));
    }
}

/// A prefix of a digit run never exceeds the whole run's value.
pub proof fn lemma_dec_val_prefix(s: Seq<char>, k: int)
    requires
        0 <= k <= s.len(),
    ensures
        dec_val(s.subrange(0, k)) <= dec_val(s),
    decreases s.len() - k,
{
    if k < s.len() {
        assert(s.drop_last().subrange(0, k) =~= s.subrange(0, k));
        lemma_dec_val_prefix(s.drop_last(), k);
        assert(dec_val(s.drop_last()) <= dec_val(s.drop_last()) * 10);
    } else {
        assert(s.subrange(0, k) =~= s);
    }
}

/// The canonical spelling of a number stands at position `i`, with no digit
/// directly after it.
pub open spec fn num_at(s: Seq<char>, i: int, v: u32) -> bool {
    &&& matches_at(s, i, dec_of(v))
    &&& (i + dec_of(v).len() == s.len() || !is_digit(s[i + dec_of(v).len()]))
}

/// At one position, at most one number can be read.
pub proof fn lemma_num_at_unique(s: Seq<char>, i: int, v1: u32, v2: u32)
    requires
        num_at(s, i, v1),
        num_at(s, i, v2),
    ensures
        v1 == v2,
{
    let d1 = dec_of(v1);
    let d2 = dec_of(v2);
    lemma_dec_of_shape(v1);
    lemma_dec_of_shape(v2);
    if d1.len() < d2.len() {
        lemma_at_index(s, i, d2, d1.len() as int);
        assert(is_digit(d2[d1.len() as int]));
    } else if d2.len() < d1.len() {
        lemma_at_index(s, i, d1, d2.len() as int);
        assert(is_digit(d1[d2.len() as int]));
    } else {
        assert(d1 =~= d2);
        lemma_dec_val_of(v1);
        lemma_dec_val_of(v2);
    }
}

/// The numeric value of a character, ten for a non-digit.
fn digit_value(c: char) -> (d: u32)
    ensures
        d == digit_val(c),
{
    if c == '0' {
        0
    } else if c == '1' {
        1
    } else if c == '2' {
        2
    } else if c == '3' {
        3
    } else if c == '4' {
        4
    } else if c == '5' {
        5
    } else if c == '6' {
        6
    } else if c == '7' {
        7
    } else if c == '8' {
        8
    } else if c == '9' {
        9
    } else {
        10
    }
}

/// Whether a digit stands at position `j`.
fn digit_at(s: &str, j: usize) -> (b: bool)
    requires
        j < s@.len(),
    ensures
        b == is_digit(s@[j as int]),
{
    digit_value(s.get_char(j)) < 10
}

/// Reads the number whose canonical spelling stands at position `i`, if any.
fn parse_u32(s: &str, i: usize) -> (r: Option<(u32, usize)>)
    requires
        i <= s@.len(),
    ensures
        match r {
            Some((v, j)) => num_at(s@, i as int, v) && j == i + dec_of(v).len(),
            None => forall|v: u32| !num_at(s@, i as int, v),
        },
{
    let n = s.unicode_len();
    if i == n || !digit_at(s, i) {
        proof {
            assert forall|v: u32| !num_at(s@, i as int, v) by {
                if num_at(s@, i as int, v) {
                    lemma_dec_of_shape(v);
                    lemma_at_index(s@, i as int, dec_of(v), 0);
                }
            }
        }
        return None;
    }
    if s.get_char(i) == '0' {
        if i + 1 < n && digit_at(s, i + 1) {
            proof {
                assert forall|v: u32| !num_at(s@, i as int, v) by {
                    if num_at(s@, i as int, v) {
                        lemma_dec_of_shape(v);
                        lemma_at_index(s@, i as int, dec_of(v), 0);
                        assert(v == 0);
                        assert(dec_of(0).len() == 1);
                    }
                }
            }
            return None;
        }
        proof {
            assert(dec_of(0) =~= seq!['0']);
            assert(s@.subrange(i as int, i + 1) =~= dec_of(0));
        }
        return Some((0, i + 1));
    }
    let mut j: usize = i;
    let mut acc: u64 = 0;
    while j < n && digit_at(s, j)
        invariant
            n == s@.len(),
            i <= j <= n,
            i < n,
            is_digit(s@[i as int]),
            s@[i as int] != '0',
            all_digits(s@.subrange(i as int, j as int)),
            acc == dec_val(s@.subrange(i as int, j as int)),
            acc <= u32::MAX,
        decreases n - j,
    {
        let c = s.get_char(j);
        let d = digit_value(c);
        let ghost run = s@.subrange(i as int, j as int);
        acc = acc * 10 + d as u64;
        j += 1;
        proof {
            assert(s@.subrange(i as int, j as int) =~= run.push(c));
            assert(run.push(c).drop_last() =~= run);
        }
        if acc > u32::MAX as u64 {
            proof {
                let consumed = s@.subrange(i as int, j as int);
                assert forall|v: u32| !num_at(s@, i as int, v) by {
                    if num_at(s@, i as int, v) {
                        let m = dec_of(v).len() as int;
                        lemma_dec_of_shape(v);
                        if m < j - i {
                            assert(is_digit(consumed[i + m - i]));
                            assert(s@[i + m] == consumed[m]);
                        } else {
                            assert(all_digits(dec_of(v)));
                            lemma_dec_val_prefix(dec_of(v), j - i);
                            assert(dec_of(v).subrange(0, j - i) =~= consumed) by {
                                assert forall|k: int| 0 <= k < j - i implies dec_of(v).subrange(
                                    0,
                                    j - i,
                                )[k] == consumed[k] by {
                                    lemma_at_index(s@, i as int, dec_of(v), k);
                                }
                            }
                            lemma_dec_val_of(v);
                        }
                    }
                }
            }
            return None;
        }
    }
    let v = acc as u32;
    proof {
        let run = s@.subrange(i as int, j as int);
        assert(run[0] == s@[i as int]);
        assert(run.len() >= 1);
        lemma_dec_canonical(run, v);
        assert(matches_at(s@, i as int, dec_of(v)));
    }
    Some((v, j))
}

// ---------------------------------------------------------------------------
// Reading: quoted text fields.
// ---------------------------------------------------------------------------

/// The escaped field `t` followed by its closing quote stands at position
/// `i`.
pub open spec fn str_at(s: Seq<char>, i: int, t: Seq<char>) -> bool {
    matches_at(s, i, esc_str(t).push('"'))
}

/// How an escaped character begins, and how long it is.
pub proof fn lemma_esc_char_shape(c: char)
    ensures
        esc_char(c).len() == 1 || esc_char(c).len() == 2,
        esc_char(c)[0] != '"',
        esc_char(c).len() == 2 ==> esc_char(c)[0] == '\\' && (esc_char(c)[1] == '"' || esc_char(
            c,
        )[1] == '\\' || esc_char(c)[1] == 'n' || esc_char(c)[1] == 'r' || esc_char(c)[1] == 't'),
        esc_char(c).len() == 1 ==> esc_char(c)[0] == c && c != '"' && c != '\\' && c != '\n' && c
            != '\r' && c != '\t',
{
}

/// The second character of a two-character escape determines the character
/// that was escaped.
pub proof fn lemma_esc_second_determines(c1: char, c2: char)
    requires
        esc_char(c1).len() == 2,
        esc_char(c2).len() == 2,
        esc_char(c1)[1] == esc_char(c2)[1],
    ensures
        c1 == c2,
{
}

/// An occurrence of an empty field starts with the closing quote.
pub proof fn lemma_str_at_empty(s: Seq<char>, i: int, t: Seq<char>)
    requires
        str_at(s, i, t),
        t.len() == 0,
    ensures
        i < s.len(),
        s[i] == '"',
{
    assert(esc_str(t).push('"') =~= seq!['"']);
    lemma_at_index(s, i, esc_str(t).push('"'), 0);
}

/// Peeling the first character off a field occurrence.
pub proof fn lemma_str_at_step(s: Seq<char>, i: int, t: Seq<char>)
    requires
        str_at(s, i, t),
        t.len() > 0,
    ensures
        i + esc_char(t[0]).len() + esc_str(t.drop_first()).len() + 1 <= s.len(),
        s[i] == esc_char(t[0])[0],
        esc_char(t[0]).len() == 2 ==> s[i + 1] == esc_char(t[0])[1],
        str_at(s, i + esc_char(t[0]).len(), t.drop_first()),
{
    assert(esc_str(t).push('"') =~= esc_char(t[0]) + esc_str(t.drop_first()).push('"'));
    lemma_at_concat(s, i, esc_char(t[0]), esc_str(t.drop_first()).push('"'));
    lemma_at_index(s, i, esc_char(t[0]), 0);
    lemma_esc_char_shape(t[0]);
    if esc_char(t[0]).len() == 2 {
        lemma_at_index(s, i, esc_char(t[0]), 1);
    }
}

/// Reads the text field whose escaped form stands at position `i` (just
/// after the opening quote), together with its closing quote.
fn parse_jstring(s: &str, i: usize) -> (r: Option<(String, usize)>)
    requires
        i <= s@.len(),
    ensures
        match r {
            Some((out, j)) => str_at(s@, i as int, out@) && j == i + esc_str(out@).len() + 1,
            None => forall|t: Seq<char>| !str_at(s@, i as int, t),
        },
{
    let n = s.unicode_len();
    let mut out = String::new();
    let mut j: usize = i;
    proof {
        assert(esc_str(out@) =~= s@.subrange(i as int, i as int));
        assert forall|t: Seq<char>| str_at(s@, i as int, t) implies (t.len() >= out@.len()
            && t.subrange(0, out@.len() as int) == out@ && str_at(
            s@,
            i as int,
            t.subrange(out@.len() as int, t.len() as int),
        )) by {
            assert(t.subrange(0, 0) =~= Seq::<char>::empty());
            assert(t.subrange(0, t.len() as int) =~= t);
        }
    }
    while j < n
        invariant
            n == s@.len(),
            i <= j <= n,
            esc_str(out@) == s@.subrange(i as int, j as int),
            forall|t: Seq<char>|
                str_at(s@, i as int, t) ==> (t.len() >= out@.len() && t.subrange(
                    0,
                    out@.len() as int,
                ) == out@ && str_at(s@, j as int, t.subrange(out@.len() as int, t.len() as int))),
        decreases n - j,
    {
        let c = s.get_char(j);
        if c == '"' {
            proof {
                assert(s@.subrange(i as int, j + 1) =~= s@.subrange(i as int, j as int).push(
                    s@[j as int],
                ));
            }
            return Some((out, j + 1));
        }
        if c == '\\' {
            if j + 1 == n {
                proof {
                    assert forall|t: Seq<char>| !str_at(s@, i as int, t) by {
                        if str_at(s@, i as int, t) {
                            let t2 = t.subrange(out@.len() as int, t.len() as int);
                            if t2.len() == 0 {
                                lemma_str_at_empty(s@, j as int, t2);
                            } else {
                                lemma_str_at_step(s@, j as int, t2);
                                lemma_esc_char_shape(t2[0]);
                            }
                        }
                    }
                }
                return None;
            }
            let c2 = s.get_char(j + 1);
            let decoded: char;
            if c2 == '"' {
                decoded = '"';
            } else if c2 == '\\' {
                decoded = '\\';
            } else if c2 == 'n' {
                decoded = '\n';
            } else if c2 == 'r' {
                decoded = '\r';
            } else if c2 == 't' {
                decoded = '\t';
            } else {
                proof {
                    assert forall|t: Seq<char>| !str_at(s@, i as int, t) by {
                        if str_at(s@, i as int, t) {
                            let t2 = t.subrange(out@.len() as int, t.len() as int);
                            if t2.len() == 0 {
                                lemma_str_at_empty(s@, j as int, t2);
                            } else {
                                lemma_str_at_step(s@, j as int, t2);
                                lemma_esc_char_shape(t2[0]);
                            }
                        }
                    }
                }
                return None;
            }
            let ghost prev = out@;
            push_char(&mut out, decoded);
            proof {
                lemma_esc_str_push(prev, decoded);
                assert(esc_char(decoded) =~= seq![s@[j as int], s@[j + 1]]);
                assert(s@.subrange(i as int, j + 2) =~= s@.subrange(i as int, j as int) + seq![
                    s@[j as int],
                    s@[j + 1],
                ]);
                assert(esc_str(out@) =~= s@.subrange(i as int, j + 2));
                assert forall|t: Seq<char>| str_at(s@, i as int, t) implies (t.len() >= out@.len()
                    && t.subrange(0, out@.len() as int) == out@ && str_at(
                    s@,
                    j + 2,
                    t.subrange(out@.len() as int, t.len() as int),
                )) by {
                    let t2 = t.subrange(prev.len() as int, t.len() as int);
                    if t2.len() == 0 {
                        lemma_str_at_empty(s@, j as int, t2);
                    } else {
                        lemma_str_at_step(s@, j as int, t2);
                        lemma_esc_char_shape(t2[0]);
                        lemma_esc_char_shape(decoded);
                        lemma_esc_second_determines(t2[0], decoded);
                        assert(t.subrange(0, prev.len() as int + 1) =~= t.subrange(
                            0,
                            prev.len() as int,
                        ).push(t[prev.len() as int]));
                        assert(t[prev.len() as int] == t2[0]);
                        assert(t.subrange(prev.len() as int + 1, t.len() as int) =~= t2.drop_first());
                    }
                }
            }
            j += 2;
        } else {
            if c == '\n' || c == '\r' || c == '\t' {
                proof {
                    assert forall|t: Seq<char>| !str_at(s@, i as int, t) by {
                        if str_at(s@, i as int, t) {
                            let t2 = t.subrange(out@.len() as int, t.len() as int);
                            if t2.len() == 0 {
                                lemma_str_at_empty(s@, j as int, t2);
                            } else {
                                lemma_str_at_step(s@, j as int, t2);
                                lemma_esc_char_shape(t2[0]);
                            }
                        }
                    }
                }
                return None;
            }
            let ghost prev = out@;
            push_char(&mut out, c);
            proof {
                lemma_esc_str_push(prev, c);
                assert(esc_char(c) =~= seq![s@[j as int]]);
                assert(s@.subrange(i as int, j + 1) =~= s@.subrange(i as int, j as int).push(
                    s@[j as int],
                ));
                assert(esc_str(out@) =~= s@.subrange(i as int, j + 1));
                assert forall|t: Seq<char>| str_at(s@, i as int, t) implies (t.len() >= out@.len()
                    && t.subrange(0, out@.len() as int) == out@ && str_at(
                    s@,
                    j + 1,
                    t.subrange(out@.len() as int, t.len() as int),
                )) by {
                    let t2 = t.subrange(prev.len() as int, t.len() as int);
                    if t2.len() == 0 {
                        lemma_str_at_empty(s@, j as int, t2);
                    } else {
                        lemma_str_at_step(s@, j as int, t2);
                        lemma_esc_char_shape(t2[0]);
                        assert(t.subrange(0, prev.len() as int + 1) =~= t.subrange(
                            0,
                            prev.len() as int,
                        ).push(t[prev.len() as int]));
                        assert(t[prev.len() as int] == t2[0]);
                        assert(t.subrange(prev.len() as int + 1, t.len() as int) =~= t2.drop_first());
                    }
                }
            }
            j += 1;
        }
    }
    proof {
        assert forall|t: Seq<char>| !str_at(s@, i as int, t) by {
            if str_at(s@, i as int, t) {
                let t2 = t.subrange(out@.len() as int, t.len() as int);
                assert(esc_str(t2).push('"').len() >= 1);
            }
        }
    }
    None
}

// ---------------------------------------------------------------------------
// Reading: records.
// ---------------------------------------------------------------------------

/// At one position, at most one text field can be read.
pub proof fn lemma_str_at_unique(s: Seq<char>, i: int, t1: Seq<char>, t2: Seq<char>)
    requires
        str_at(s, i, t1),
        str_at(s, i, t2),
    ensures
        t1 == t2,
    decreases t1.len(),
{
    if t1.len() == 0 {
        lemma_str_at_empty(s, i, t1);
        if t2.len() > 0 {
            lemma_str_at_step(s, i, t2);
            lemma_esc_char_shape(t2[0]);
        }
        assert(t1 =~= t2);
    } else if t2.len() == 0 {
        lemma_str_at_empty(s, i, t2);
        lemma_str_at_step(s, i, t1);
        lemma_esc_char_shape(t1[0]);
    } else {
        lemma_str_at_step(s, i, t1);
        lemma_str_at_step(s, i, t2);
        lemma_esc_char_shape(t1[0]);
        lemma_esc_char_shape(t2[0]);
        if s[i] == '\\' {
            lemma_esc_second_determines(t1[0], t2[0]);
        }
        assert(t1[0] == t2[0]);
        lemma_str_at_unique(s, i + esc_char(t1[0]).len(), t1.drop_first(), t2.drop_first());
        assert forall|k: int| 0 <= k < t1.len() implies t1[k] == t2[k] by {
            if k > 0 {
                assert(t1[k] == t1.drop_first()[k - 1]);
                assert(t2[k] == t2.drop_first()[k - 1]);
            }
        }
        assert(t1 =~= t2);
    }
}

/// The record `tv` stands at position `i`.
pub open spec fn task_at(s: Seq<char>, i: int, tv: TaskView) -> bool {
    matches_at(s, i, enc_task(tv))
}

/// The parts of a record occurrence, each at its own position.
pub proof fn lemma_task_at_parts(s: Seq<char>, i: int, tv: TaskView)
    requires
        task_at(s, i, tv),
    ensures
        matches_at(s, i, lit_task_a()),
        num_at(s, i + lit_task_a().len(), tv.id),
        matches_at(s, i + lit_task_a().len() + dec_of(tv.id).len(), lit_task_b()),
        str_at(
            s,
            i + lit_task_a().len() + dec_of(tv.id).len() + lit_task_b().len(),
            tv.title,
        ),
        matches_at(
            s,
            i + lit_task_a().len() + dec_of(tv.id).len() + lit_task_b().len() + esc_str(
                tv.title,
            ).len() + 1,
            lit_task_c(),
        ),
        str_at(
            s,
            i + lit_task_a().len() + dec_of(tv.id).len() + lit_task_b().len() + esc_str(
                tv.title,
            ).len() + 1 + lit_task_c().len(),
            tv.description,
        ),
        matches_at(
            s,
            i + lit_task_a().len() + dec_of(tv.id).len() + lit_task_b().len() + esc_str(
                tv.title,
            ).len() + 1 + lit_task_c().len() + esc_str(tv.description).len() + 1,
            lit_task_d(),
        ),
        enc_task(tv).len() == lit_task_a().len() + dec_of(tv.id).len() + lit_task_b().len()
            + esc_str(tv.title).len() + 1 + lit_task_c().len() + esc_str(tv.description).len() + 1
            + lit_task_d().len(),
{
    let a = lit_task_a();
    let d = dec_of(tv.id);
    let b = lit_task_b();
    let t = esc_str(tv.title).push('"');
    let c = lit_task_c();
    let e = esc_str(tv.description).push('"');
    let f = lit_task_d();
    lemma_at_concat(s, i, a + d + b + t + c + e, f);
    lemma_at_concat(s, i, a + d + b + t + c, e);
    lemma_at_concat(s, i, a + d + b + t, c);
    lemma_at_concat(s, i, a + d + b, t);
    lemma_at_concat(s, i, a + d, b);
    lemma_at_concat(s, i, a, d);
    reveal_strlit(",\n    \"title\": \"");
    lemma_at_index(s, i + a.len() + d.len(), b, 0);
}

/// At one position, at most one record can be read.
pub proof fn lemma_task_at_unique(s: Seq<char>, i: int, t1: TaskView, t2: TaskView)
    requires
        task_at(s, i, t1),
        task_at(s, i, t2),
    ensures
        t1 == t2,
{
    lemma_task_at_parts(s, i, t1);
    lemma_task_at_parts(s, i, t2);
    lemma_num_at_unique(s, i + lit_task_a().len(), t1.id, t2.id);
    let p = i + lit_task_a().len() + dec_of(t1.id).len() + lit_task_b().len();
    lemma_str_at_unique(s, p, t1.title, t2.title);
    let q = p + esc_str(t1.title).len() + 1 + lit_task_c().len();
    lemma_str_at_unique(s, q, t1.description, t2.description);
    assert(t1 =~= t2);
}

/// A record occupies at least one character.
pub proof fn lemma_enc_task_len_pos(t: TaskView)
    ensures
        enc_task(t).len() > 0,
{
    reveal_strlit("  {\n    \"id\": ");
}

/// Reads the record that stands at position `i`, if any.
fn parse_task(s: &str, i: usize) -> (r: Option<(Task, usize)>)
    requires
        i <= s@.len(),
    ensures
        match r {
            Some((t, j)) => task_at(s@, i as int, t@) && j == i + enc_task(t@).len(),
            None => forall|tv: TaskView| !task_at(s@, i as int, tv),
        },
{
    let j1 = match expect_lit(s, i, "  {\n    \"id\": ") {
        Some(j) => j,
        None => {
            proof {
                assert forall|tv: TaskView| !task_at(s@, i as int, tv) by {
                    if task_at(s@, i as int, tv) {
                        lemma_task_at_parts(s@, i as int, tv);
                    }
                }
            }
            return None;
        },
    };
    let (id, j2) = match parse_u32(s, j1) {
        Some(p) => p,
        None => {
            proof {
                assert forall|tv: TaskView| !task_at(s@, i as int, tv) by {
                    if task_at(s@, i as int, tv) {
                        lemma_task_at_parts(s@, i as int, tv);
                    }
                }
            }
            return None;
        },
    };
    let j3 = match expect_lit(s, j2, ",\n    \"title\": \"") {
        Some(j) => j,
        None => {
            proof {
                assert forall|tv: TaskView| !task_at(s@, i as int, tv) by {
                    if task_at(s@, i as int, tv) {
                        lemma_task_at_parts(s@, i as int, tv);
                        lemma_num_at_unique(s@, j1 as int, id, tv.id);
                    }
                }
            }
            return None;
        },
    };
    let (title, j4) = match parse_jstring(s, j3) {
        Some(p) => p,
        None => {
            proof {
                assert forall|tv: TaskView| !task_at(s@, i as int, tv) by {
                    if task_at(s@, i as int, tv) {
                        lemma_task_at_parts(s@, i as int, tv);
                        lemma_num_at_unique(s@, j1 as int, id, tv.id);
                    }
                }
            }
            return None;
        },
    };
    let j5 = match expect_lit(s, j4, ",\n    \"description\": \"") {
        Some(j) => j,
        None => {
            proof {
                assert forall|tv: TaskView| !task_at(s@, i as int, tv) by {
                    if task_at(s@, i as int, tv) {
                        lemma_task_at_parts(s@, i as int, tv);
                        lemma_num_at_unique(s@, j1 as int, id, tv.id);
                        lemma_str_at_unique(s@, j3 as int, title@, tv.title);
                    }
                }
            }
            return None;
        },
    };
    let (description, j6) = match parse_jstring(s, j5) {
        Some(p) => p,
        None => {
            proof {
                assert forall|tv: TaskView| !task_at(s@, i as int, tv) by {
                    if task_at(s@, i as int, tv) {
                        lemma_task_at_parts(s@, i as int, tv);
                        lemma_num_at_unique(s@, j1 as int, id, tv.id);
                        lemma_str_at_unique(s@, j3 as int, title@, tv.title);
                    }
                }
            }
            return None;
        },
    };
    let j7 = match expect_lit(s, j6, "\n  }") {
        Some(j) => j,
        None => {
            proof {
                assert forall|tv: TaskView| !task_at(s@, i as int, tv) by {
                    if task_at(s@, i as int, tv) {
                        lemma_task_at_parts(s@, i as int, tv);
                        lemma_num_at_unique(s@, j1 as int, id, tv.id);
                        lemma_str_at_unique(s@, j3 as int, title@, tv.title);
                        lemma_str_at_unique(s@, j5 as int, description@, tv.description);
                    }
                }
            }
            return None;
        },
    };
    let t = Task { id, title, description };
    proof {
        let a = lit_task_a();
        let d = dec_of(id);
        let b = lit_task_b();
        let tt = esc_str(t.title@).push('"');
        let c = lit_task_c();
        let e = esc_str(t.description@).push('"');
        let f = lit_task_d();
        lemma_at_concat(s@, i as int, a, d);
        lemma_at_concat(s@, i as int, a + d, b);
        lemma_at_concat(s@, i as int, a + d + b, tt);
        lemma_at_concat(s@, i as int, a + d + b + tt, c);
        lemma_at_concat(s@, i as int, a + d + b + tt + c, e);
        lemma_at_concat(s@, i as int, a + d + b + tt + c + e, f);
    }
    Some((t, j7))
}

// ---------------------------------------------------------------------------
// Reading: the whole collection.
// ---------------------------------------------------------------------------

/// The remaining records `rest`, followed by the closing bracket, fill `s`
/// exactly from position `i` to its end.
pub open spec fn tail_at(s: Seq<char>, i: int, rest: Seq<TaskView>) -> bool {
    &&& rest.len() > 0
    &&& matches_at(s, i, enc_list(rest) + lit_close())
    &&& i + enc_list(rest).len() + lit_close().len() == s.len()
}

/// Peeling the first record off the remaining records.
pub proof fn lemma_tail_at_head(s: Seq<char>, i: int, rest: Seq<TaskView>)
    requires
        tail_at(s, i, rest),
    ensures
        task_at(s, i, rest[0]),
        rest.len() == 1 ==> matches_at(s, i + enc_task(rest[0]).len(), lit_close()) && i
            + enc_task(rest[0]).len() + lit_close().len() == s.len(),
        rest.len() > 1 ==> matches_at(s, i + enc_task(rest[0]).len(), lit_sep()) && tail_at(
            s,
            i + enc_task(rest[0]).len() + lit_sep().len(),
            rest.drop_first(),
        ),
{
    if rest.len() == 1 {
        lemma_at_concat(s, i, enc_task(rest[0]), lit_close());
    } else {
        assert((enc_task(rest[0]) + lit_sep() + enc_list(rest.drop_first())) + lit_close() =~=
        enc_task(rest[0]) + (lit_sep() + (enc_list(rest.drop_first()) + lit_close())));
        lemma_at_concat(
            s,
            i,
            enc_task(rest[0]),
            lit_sep() + (enc_list(rest.drop_first()) + lit_close()),
        );
        lemma_at_concat(
            s,
            i + enc_task(rest[0]).len(),
            lit_sep(),
            enc_list(rest.drop_first()) + lit_close(),
        );
    }
}

/// From one position, only one run of remaining records can fill the text.
pub proof fn lemma_tail_at_unique(s: Seq<char>, i: int, r1: Seq<TaskView>, r2: Seq<TaskView>)
    requires
        tail_at(s, i, r1),
        tail_at(s, i, r2),
    ensures
        r1 == r2,
    decreases r1.len(),
{
    reveal_strlit("\n]");
    reveal_strlit(",\n");
    lemma_tail_at_head(s, i, r1);
    lemma_tail_at_head(s, i, r2);
    lemma_task_at_unique(s, i, r1[0], r2[0]);
    let j = i + enc_task(r1[0]).len();
    if r1.len() == 1 && r2.len() == 1 {
        assert(r1 =~= r2);
    } else if r1.len() == 1 && r2.len() > 1 {
        lemma_at_index(s, j, lit_close(), 0);
        lemma_at_index(s, j, lit_sep(), 0);
    } else if r2.len() == 1 && r1.len() > 1 {
        lemma_at_index(s, j, lit_close(), 0);
        lemma_at_index(s, j, lit_sep(), 0);
    } else {
        lemma_tail_at_unique(s, j + lit_sep().len(), r1.drop_first(), r2.drop_first());
        assert forall|k: int| 0 <= k < r1.len() implies r1[k] == r2[k] by {
            if k > 0 {
                assert(r1[k] == r1.drop_first()[k - 1]);
                assert(r2[k] == r2.drop_first()[k - 1]);
            }
        }
        assert(r1 =~= r2);
    }
}

/// The stored text determines the collection: two collections with the same
/// stored form are the same sequence of records. Together with the
/// contracts of `tasks_to_json` and `tasks_from_json` this says that a
/// saved collection, loaded back, is identical: same identifiers, titles,
/// descriptions, in the same order.
pub proof fn lemma_enc_tasks_injective(t1: Seq<TaskView>, t2: Seq<TaskView>)
    requires
        enc_tasks(t1) == enc_tasks(t2),
    ensures
        t1 == t2,
{
    reveal_strlit("[]");
    reveal_strlit("[\n");
    reveal_strlit("\n]");
    let s = enc_tasks(t1);
    if t1.len() == 0 && t2.len() == 0 {
        assert(t1 =~= t2);
    } else if t1.len() == 0 && t2.len() > 0 {
        lemma_enc_task_len_pos(t2[0]);
        assert(enc_list(t2).len() > 0);
    } else if t2.len() == 0 && t1.len() > 0 {
        lemma_enc_task_len_pos(t1[0]);
        assert(enc_list(t1).len() > 0);
    } else {
        assert(matches_at(s, 0, s)) by {
            assert(s.subrange(0, s.len() as int) =~= s);
        }
        assert(s =~= lit_open() + (enc_list(t1) + lit_close()));
        lemma_at_concat(s, 0, lit_open(), enc_list(t1) + lit_close());
        assert(s =~= lit_open() + (enc_list(t2) + lit_close()));
        lemma_at_concat(s, 0, lit_open(), enc_list(t2) + lit_close());
        lemma_tail_at_unique(s, lit_open().len() as int, t1, t2);
    }
}

/// Reads a non-empty collection: the opening bracket, the records, the
/// closing bracket, with nothing before or after.
fn parse_nonempty(s: &str) -> (r: Result<Vec<Task>, TaskError>)
    ensures
        match r {
            Ok(ts) => s@ == enc_tasks(ts.deep_view()) && ts.deep_view().len() > 0,
            Err(e) => e == TaskError::Format && forall|ts: Seq<TaskView>|
                ts.len() > 0 ==> s@ != enc_tasks(ts),
        },
{
    let n = s.unicode_len();
    let start = match expect_lit(s, 0, "[\n") {
        Some(j) => j,
        None => {
            proof {
                assert forall|ts: Seq<TaskView>| ts.len() > 0 implies s@ != enc_tasks(ts) by {
                    if s@ == enc_tasks(ts) {
                        assert(s@ =~= lit_open() + (enc_list(ts) + lit_close()));
                        assert(matches_at(s@, 0, s@)) by {
                            assert(s@.subrange(0, s@.len() as int) =~= s@);
                        }
                        lemma_at_concat(s@, 0, lit_open(), enc_list(ts) + lit_close());
                    }
                }
            }
            return Err(TaskError::Format);
        },
    };
    let mut out: Vec<Task> = Vec::new();
    let mut cur: usize = start;
    proof {
        reveal_strlit("[\n");
        lemma_tasks_deep_view(out);
        assert(out.deep_view() =~= Seq::<TaskView>::empty());
        assert(enc_pre(out.deep_view()) == Seq::<char>::empty());
        assert(s@.subrange(0, cur as int) =~= lit_open() + enc_pre(out.deep_view()));
        assert forall|ts: Seq<TaskView>| s@ == enc_tasks(ts) && ts.len() > 0 implies (ts.len()
            > out@.len() && ts.subrange(0, out@.len() as int) == out.deep_view() && tail_at(
            s@,
            cur as int,
            ts.subrange(out@.len() as int, ts.len() as int),
        )) by {
            assert(s@ =~= lit_open() + (enc_list(ts) + lit_close()));
            assert(matches_at(s@, 0, s@)) by {
                assert(s@.subrange(0, s@.len() as int) =~= s@);
            }
            lemma_at_concat(s@, 0, lit_open(), enc_list(ts) + lit_close());
            assert(ts.subrange(0, 0) =~= Seq::<TaskView>::empty());
            assert(ts.subrange(0, ts.len() as int) =~= ts);
        }
    }
    loop
        invariant
            n == s@.len(),
            2 <= cur <= n,
            out.deep_view().len() == out@.len(),
            s@.subrange(0, cur as int) == lit_open() + enc_pre(out.deep_view()),
            forall|ts: Seq<TaskView>|
                s@ == enc_tasks(ts) && ts.len() > 0 ==> (ts.len() > out@.len() && ts.subrange(
                    0,
                    out@.len() as int,
                ) == out.deep_view() && tail_at(
                    s@,
                    cur as int,
                    ts.subrange(out@.len() as int, ts.len() as int),
                )),
        decreases n - cur,
    {
        let (t, j) = match parse_task(s, cur) {
            Some(p) => p,
            None => {
                proof {
                    assert forall|ts: Seq<TaskView>| ts.len() > 0 implies s@ != enc_tasks(ts) by {
                        if s@ == enc_tasks(ts) {
                            let rest = ts.subrange(out@.len() as int, ts.len() as int);
                            lemma_tail_at_head(s@, cur as int, rest);
                        }
                    }
                }
                return Err(TaskError::Format);
            },
        };
        match expect_lit(s, j, ",\n") {
            Some(j2) => {
                let ghost prev = out;
                out.push(t);
                proof {
                    reveal_strlit(",\n");
                    reveal_strlit("\n]");
                    lemma_tasks_deep_view(prev);
                    lemma_tasks_deep_view(out);
                    assert(out.deep_view() =~= prev.deep_view().push(t@));
                    lemma_enc_pre_snoc(prev.deep_view(), t@);
                    assert(s@.subrange(0, j2 as int) =~= s@.subrange(0, cur as int) + s@.subrange(
                        cur as int,
                        j as int,
                    ) + s@.subrange(j as int, j2 as int));
                    assert(s@.subrange(cur as int, j as int) == enc_task(t@));
                    assert(s@.subrange(j as int, j2 as int) == lit_sep());
                    assert(s@.subrange(0, j2 as int) =~= lit_open() + enc_pre(out.deep_view()));
                    assert forall|ts: Seq<TaskView>| s@ == enc_tasks(ts) && ts.len() > 0 implies (
                    ts.len() > out@.len() && ts.subrange(0, out@.len() as int) == out.deep_view()
                        && tail_at(
                        s@,
                        j2 as int,
                        ts.subrange(out@.len() as int, ts.len() as int),
                    )) by {
                        let rest = ts.subrange(prev@.len() as int, ts.len() as int);
                        lemma_tail_at_head(s@, cur as int, rest);
                        lemma_task_at_unique(s@, cur as int, t@, rest[0]);
                        if rest.len() == 1 {
                            lemma_at_index(s@, j as int, lit_close(), 0);
                            lemma_at_index(s@, j as int, lit_sep(), 0);
                        }
                        assert(rest.len() > 1);
                        assert(ts.subrange(0, prev@.len() as int + 1) =~= ts.subrange(
                            0,
                            prev@.len() as int,
                        ).push(ts[prev@.len() as int]));
                        assert(ts[prev@.len() as int] == rest[0]);
                        assert(ts.subrange(prev@.len() as int + 1, ts.len() as int)
                            =~= rest.drop_first());
                    }
                }
                cur = j2;
                proof {
                    lemma_enc_task_len_pos(t@);
                }
            },
            None => {
                match expect_lit(s, j, "\n]") {
                    Some(j3) => {
                        if j3 == n {
                            let ghost prev = out;
                            out.push(t);
                            proof {
                                lemma_tasks_deep_view(prev);
                                lemma_tasks_deep_view(out);
                                assert(out.deep_view() =~= prev.deep_view().push(t@));
                                lemma_enc_list_snoc(prev.deep_view(), t@);
                                assert(s@.subrange(0, j3 as int) =~= s@.subrange(0, cur as int)
                                    + s@.subrange(cur as int, j as int) + s@.subrange(
                                    j as int,
                                    j3 as int,
                                ));
                                assert(s@.subrange(cur as int, j as int) == enc_task(t@));
                                assert(s@.subrange(j as int, j3 as int) == lit_close());
                                assert(s@.subrange(0, j3 as int) =~= s@);
                                assert(s@ =~= lit_open() + enc_list(out.deep_view())
                                    + lit_close());
                                assert(out.deep_view().len() > 0);
                            }
                            return Ok(out);
                        }
                        proof {
                            assert forall|ts: Seq<TaskView>| ts.len() > 0 implies s@ != enc_tasks(
                                ts,
                            ) by {
                                if s@ == enc_tasks(ts) {
                                    let rest = ts.subrange(out@.len() as int, ts.len() as int);
                                    lemma_tail_at_head(s@, cur as int, rest);
                                    lemma_task_at_unique(s@, cur as int, t@, rest[0]);
                                    if rest.len() > 1 {
                                        assert(matches_at(s@, j as int, lit_sep()));
                                    } else {
                                        assert(matches_at(s@, j as int, lit_close()));
                                        assert(j + lit_close().len() == s@.len());
                                        reveal_strlit("\n]");
                                    }
                                }
                            }
                        }
                        return Err(TaskError::Format);
                    },
                    None => {
                        proof {
                            assert forall|ts: Seq<TaskView>| ts.len() > 0 implies s@ != enc_tasks(
                                ts,
                            ) by {
                                if s@ == enc_tasks(ts) {
                                    let rest = ts.subrange(out@.len() as int, ts.len() as int);
                                    lemma_tail_at_head(s@, cur as int, rest);
                                    lemma_task_at_unique(s@, cur as int, t@, rest[0]);
                                    if rest.len() > 1 {
                                        assert(matches_at(s@, j as int, lit_sep()));
                                    } else {
                                        assert(matches_at(s@, j as int, lit_close()));
                                    }
                                }
                            }
                        }
                        return Err(TaskError::Format);
                    },
                }
            },
        }
    }
}

/// Reads a whole collection from its stored text. Succeeds exactly on the
/// texts the writer produces, and then returns the one collection the text
/// spells.
pub fn tasks_from_json(s: &str) -> (r: Result<Vec<Task>, TaskError>)
    ensures
        match r {
            Ok(ts) => s@ == enc_tasks(ts.deep_view()),
            Err(e) => e == TaskError::Format && forall|ts: Seq<TaskView>|
                s@ != enc_tasks(ts),
        },
{
    let n = s.unicode_len();
    match expect_lit(s, 0, "[]") {
        Some(_) => {
            if n == 2 {
                let out: Vec<Task> = Vec::new();
                proof {
                    reveal_strlit("[]");
                    lemma_tasks_deep_view(out);
                    assert(out.deep_view() =~= Seq::<TaskView>::empty());
                    assert(s@.subrange(0, 2) =~= s@);
                }
                return Ok(out);
            }
            let r = parse_nonempty(s);
            proof {
                if r is Err {
                    reveal_strlit("[]");
                    assert forall|ts: Seq<TaskView>| s@ != enc_tasks(ts) by {
                        if s@ == enc_tasks(ts) && ts.len() == 0 {
                            assert(s@.len() == 2);
                        }
                    }
                }
            }
            r
        },
        None => {
            let r = parse_nonempty(s);
            proof {
                if r is Err {
                    assert forall|ts: Seq<TaskView>| s@ != enc_tasks(ts) by {
                        if s@ == enc_tasks(ts) && ts.len() == 0 {
                            assert(matches_at(s@, 0, lit_empty())) by {
                                assert(s@.subrange(0, s@.len() as int) =~= s@);
                                reveal_strlit("[]");
                            }
                        }
                    }
                }
            }
            r
        },
    }
}

} // verus!
