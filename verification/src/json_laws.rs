//! Laws of the JSON reader: what is written is what is read.

use crate::entries::{distinct_keys, lemma_key_index_is, put};
use crate::json::{
    after_blanks, after_comma, after_sign, as_chars, digits_end, is_blank, is_digit, is_number,
    is_number_byte, items_at, mantissa_end, members_at, number_end, quoted, string_at, value_at,
    Value,
};
use vstd::prelude::*;

verus! {

/// The bytes `w` stand at position `i`.
pub open spec fn stands(b: Seq<u8>, i: nat, w: Seq<u8>) -> bool {
    i + w.len() <= b.len() && forall|k: int| 0 <= k < w.len() ==> b[i + k] == #[trigger] w[k]
}

/// A character inside a string. Quotes, backslashes, line feeds and tabulators are escaped.
pub open spec fn escaped(c: char) -> Seq<u8> {
    if c == '"' {
        seq![0x5C, 0x22]
    } else if c == '\\' {
        seq![0x5C, 0x5C]
    } else if c == '\n' {
        seq![0x5C, 0x6E]
    } else if c == '\t' {
        seq![0x5C, 0x74]
    } else {
        seq![c as u8]
    }
}

pub open spec fn escaped_text(s: Seq<char>) -> Seq<u8>
    decreases s.len(),
{
    if s.len() == 0 {
        seq![]
    } else {
        escaped(s[0]) + escaped_text(s.drop_first())
    }
}

/// A string in its quotes.
pub open spec fn string_text(s: Seq<char>) -> Seq<u8> {
    seq![0x22u8] + escaped_text(s) + seq![0x22u8]
}

/// A value as JSON, with `gap` in front of everything in it.
pub open spec fn written(v: Value, gap: Seq<u8>) -> Seq<u8>
    decreases v, 0nat,
{
    gap + match v {
        Value::Null => seq![0x6Eu8, 0x75, 0x6C, 0x6C],
        Value::Bool(true) => seq![0x74u8, 0x72, 0x75, 0x65],
        Value::Bool(false) => seq![0x66u8, 0x61, 0x6C, 0x73, 0x65],
        Value::Num(t) => t.map_values(|c: char| c as u8),
        Value::Str(s) => string_text(s),
        Value::Arr(a) => seq![0x5Bu8] + written_items(a, 0, gap) + gap + seq![0x5Du8],
        Value::Obj(m) => seq![0x7Bu8] + written_members(m, 0, gap) + gap + seq![0x7Du8],
    }
}

/// The elements of an array from the `k`-th on, with commas between them.
pub open spec fn written_items(a: Seq<Value>, k: nat, gap: Seq<u8>) -> Seq<u8>
    decreases a, a.len() - k,
{
    if k >= a.len() {
        seq![]
    } else if k + 1 == a.len() {
        written(a[k as int], gap)
    } else {
        written(a[k as int], gap) + (gap + seq![0x2Cu8]) + written_items(a, k + 1, gap)
    }
}

/// The entries of an object from the `k`-th on, with commas between them.
pub open spec fn written_members(m: Seq<(Seq<char>, Value)>, k: nat, gap: Seq<u8>) -> Seq<u8>
    decreases m, m.len() - k,
{
    if k >= m.len() {
        seq![]
    } else {
        let entry = gap + string_text(m[k as int].0) + (gap + seq![0x3Au8]) + written(
            m[k as int].1,
            gap,
        );
        if k + 1 == m.len() {
            entry
        } else {
            entry + (gap + seq![0x2Cu8]) + written_members(m, k + 1, gap)
        }
    }
}

/// Every character fits into a byte.
pub open spec fn narrow(s: Seq<char>) -> bool {
    forall|i: int| 0 <= i < s.len() ==> 0 <= (#[trigger] s[i]) as int <= 0xFF
}

/// A value that JSON can hold: numbers are decimals, no object has a key twice, and every
/// character fits into a byte.
pub open spec fn writable(v: Value) -> bool
    decreases v,
{
    match v {
        Value::Num(t) => narrow(t) && is_number(t.map_values(|c: char| c as u8)),
        Value::Str(s) => narrow(s),
        Value::Arr(a) => forall|i: int| 0 <= i < a.len() ==> writable(#[trigger] a[i]),
        Value::Obj(m) => distinct_keys(m) && forall|i: int|
            0 <= i < m.len() ==> narrow((#[trigger] m[i]).0) && writable(m[i].1),
        _ => true,
    }
}

/// All bytes are blanks.
pub open spec fn blank(gap: Seq<u8>) -> bool {
    forall|i: int| 0 <= i < gap.len() ==> is_blank(#[trigger] gap[i])
}

/// No number goes on at position `i`.
spec fn ends(b: Seq<u8>, i: nat) -> bool {
    i < b.len() ==> !is_number_byte(b[i as int])
}

proof fn lemma_split(b: Seq<u8>, i: nat, x: Seq<u8>, y: Seq<u8>)
    requires
        stands(b, i, x + y),
    ensures
        stands(b, i, x),
        stands(b, i + x.len(), y),
        (x + y).len() == x.len() + y.len(),
{
    assert forall|k: int| 0 <= k < x.len() implies b[i + k] == #[trigger] x[k] by {
        assert((x + y)[k] == x[k]);
    }
    assert forall|k: int| 0 <= k < y.len() implies b[i + x.len() + k] == #[trigger] y[k] by {
        assert((x + y)[x.len() + k] == y[k]);
    }
}

proof fn lemma_gap(b: Seq<u8>, i: nat, gap: Seq<u8>)
    requires
        stands(b, i, gap),
        blank(gap),
        i + gap.len() < b.len(),
        !is_blank(b[(i + gap.len()) as int]),
    ensures
        after_blanks(b, i) == i + gap.len(),
    decreases gap.len(),
{
    if gap.len() > 0 {
        let rest = gap.drop_first();
        assert(gap =~= seq![gap[0]] + rest);
        lemma_split(b, i, seq![gap[0]], rest);
        assert(b[i as int + 0] == gap[0]);
        assert forall|k: int| 0 <= k < rest.len() implies is_blank(#[trigger] rest[k]) by {
            assert(rest[k] == gap[k + 1]);
        }
        lemma_gap(b, i + 1, rest);
    }
}

proof fn lemma_quoted_reads(b: Seq<u8>, i: nat, s: Seq<char>)
    requires
        stands(b, i, escaped_text(s)),
        i + escaped_text(s).len() < b.len(),
        b[(i + escaped_text(s).len()) as int] == 0x22,
        narrow(s),
    ensures
        quoted(b, i) == (s, i + escaped_text(s).len()),
    decreases s.len(),
{
    if s.len() == 0 {
        assert(s =~= seq![]);
    } else {
        let c = s[0];
        let rest = s.drop_first();
        let first = escaped(c);
        assert forall|k: int| 0 <= k < rest.len() implies 0 <= (#[trigger] rest[k]) as int <= 0xFF by {
            assert(rest[k] == s[k + 1]);
        }
        lemma_split(b, i, first, escaped_text(rest));
        lemma_quoted_reads(b, i + first.len(), rest);
        assert(b[i as int + 0] == first[0]);
        assert(s =~= seq![c] + rest);
        assert(0 <= c as int <= 0xFF);
        if first.len() == 2 {
            assert(b[i as int + 1] == first[1]);
            assert(quoted(b, i).0 =~= s);
        } else {
            assert(first[0] as char == c);
            assert(quoted(b, i).0 =~= s);
        }
    }
}

proof fn lemma_string_reads(b: Seq<u8>, i: nat, s: Seq<char>)
    requires
        stands(b, i, string_text(s)),
        narrow(s),
    ensures
        after_blanks(b, i) == i,
        b[i as int] == 0x22,
        string_at(b, i) == Ok::<(Seq<char>, nat), Seq<char>>((s, i + string_text(s).len())),
{
    let open = seq![0x22u8];
    lemma_split(b, i, open + escaped_text(s), open);
    lemma_split(b, i, open, escaped_text(s));
    assert(b[i as int + 0] == open[0]);
    let end = i + 1 + escaped_text(s).len();
    assert(b[end as int + 0] == open[0]);
    lemma_quoted_reads(b, i + 1, s);
}

proof fn lemma_number_run(b: Seq<u8>, i: nat, t: Seq<u8>)
    requires
        stands(b, i, t),
        forall|k: int| 0 <= k < t.len() ==> is_number_byte(#[trigger] t[k]),
        ends(b, i + t.len()),
    ensures
        number_end(b, i) == i + t.len(),
    decreases t.len(),
{
    if t.len() > 0 {
        let rest = t.drop_first();
        assert(t =~= seq![t[0]] + rest);
        lemma_split(b, i, seq![t[0]], rest);
        assert(b[i as int + 0] == t[0]);
        assert forall|k: int| 0 <= k < rest.len() implies is_number_byte(#[trigger] rest[k]) by {
            assert(rest[k] == t[k + 1]);
        }
        lemma_number_run(b, i + 1, rest);
    }
}

proof fn lemma_digits(t: Seq<u8>, i: nat)
    ensures
        i <= digits_end(t, i),
        i <= t.len() ==> digits_end(t, i) <= t.len(),
        forall|k: int| i <= k < digits_end(t, i) ==> is_digit(#[trigger] t[k]),
        digits_end(t, i) < t.len() ==> !is_digit(t[digits_end(t, i) as int]),
    decreases t.len() - i,
{
    if i < t.len() && is_digit(t[i as int]) {
        lemma_digits(t, i + 1);
    }
}

/// A decimal consists of the bytes of a number and does not begin like another value.
proof fn lemma_number_bytes(t: Seq<u8>)
    requires
        is_number(t),
    ensures
        t.len() > 0,
        forall|k: int| 0 <= k < t.len() ==> is_number_byte(#[trigger] t[k]),
{
    let start = after_sign(t, 0);
    let whole = digits_end(t, start);
    let end = mantissa_end(t);
    lemma_digits(t, start);
    if whole < t.len() && t[whole as int] == 0x2E {
        lemma_digits(t, whole + 1);
    }
    if end != t.len() {
        lemma_digits(t, after_sign(t, end + 1));
    }
}

proof fn lemma_number_reads(b: Seq<u8>, i: nat, t: Seq<char>)
    requires
        narrow(t),
        is_number(t.map_values(|c: char| c as u8)),
        stands(b, i, t.map_values(|c: char| c as u8)),
        ends(b, i + t.len()),
    ensures
        value_at(b, i) == Ok::<(Value, nat), Seq<char>>((Value::Num(t), i + t.len())),
{
    let w = t.map_values(|c: char| c as u8);
    lemma_number_bytes(w);
    assert(b[i as int + 0] == w[0]);
    assert(is_number_byte(w[0]));
    lemma_number_run(b, i, w);
    assert(b.subrange(i as int, (i + w.len()) as int) =~= w);
    assert forall|k: int| 0 <= k < t.len() implies #[trigger] as_chars(w)[k] == t[k] by {
        assert(0 <= t[k] as int <= 0xFF);
        assert(w[k] == t[k] as u8);
    }
    assert(as_chars(w) =~= t);
    assert(after_blanks(b, i) == i);
}

/// The first byte behind the gap is no blank.
proof fn lemma_starts(v: Value, gap: Seq<u8>)
    requires
        writable(v),
    ensures
        written(v, gap).len() > gap.len(),
        !is_blank(written(v, gap)[gap.len() as int]),
        written(v, gap).take(gap.len() as int) == gap,
{
    let w = written(v, gap);
    assert(w.take(gap.len() as int) =~= gap);
    if let Value::Num(t) = v {
        let n = t.map_values(|c: char| c as u8);
        lemma_number_bytes(n);
        assert(w[gap.len() as int] == n[0]);
        assert(is_number_byte(n[0]));
    }
}

proof fn lemma_reads(b: Seq<u8>, i: nat, v: Value, gap: Seq<u8>)
    requires
        stands(b, i, written(v, gap)),
        writable(v),
        blank(gap),
        ends(b, i + written(v, gap).len()),
    ensures
        value_at(b, i) == Ok::<(Value, nat), Seq<char>>((v, i + written(v, gap).len())),
    decreases v, 0nat,
{
    let w = written(v, gap);
    lemma_starts(v, gap);
    let j = i + gap.len();
    let body = w.skip(gap.len() as int);
    assert(w =~= gap + body);
    lemma_split(b, i, gap, body);
    assert(b[j as int + 0] == body[0]);
    assert(body[0] == w[gap.len() as int]);
    lemma_gap(b, i, gap);
    assert(after_blanks(b, j) == j);
    assert(value_at(b, i) == value_at(b, j));
    match v {
        Value::Num(t) => {
            assert(body =~= t.map_values(|c: char| c as u8));
            lemma_number_reads(b, j, t);
        },
        Value::Str(s) => {
            assert(body =~= string_text(s));
            lemma_string_reads(b, j, s);
        },
        Value::Arr(a) => {
            let open = seq![0x5Bu8];
            let close = seq![0x5Du8];
            let items = written_items(a, 0, gap);
            assert(body =~= open + items + gap + close);
            lemma_split(b, j, open + items + gap, close);
            lemma_split(b, j, open + items, gap);
            lemma_split(b, j, open, items);
            assert(b[j as int + 0] == open[0]);
            let shut = j + 1 + items.len() + gap.len();
            assert(b[shut as int + 0] == close[0]);
            if a.len() == 0 {
                assert(items =~= seq![]);
                lemma_gap(b, j + 1, gap);
                assert(a =~= seq![]);
            } else {
                assert(a.take(0) =~= seq![]);
                lemma_items_read(b, j + 1, a, 0, gap);
            }
        },
        Value::Obj(m) => {
            let open = seq![0x7Bu8];
            let close = seq![0x7Du8];
            let members = written_members(m, 0, gap);
            assert(body =~= open + members + gap + close);
            lemma_split(b, j, open + members + gap, close);
            lemma_split(b, j, open + members, gap);
            lemma_split(b, j, open, members);
            assert(b[j as int + 0] == open[0]);
            let shut = j + 1 + members.len() + gap.len();
            assert(b[shut as int + 0] == close[0]);
            if m.len() == 0 {
                assert(members =~= seq![]);
                lemma_gap(b, j + 1, gap);
                assert(m =~= seq![]);
            } else {
                assert(m.take(0) =~= seq![]);
                lemma_members_read(b, j + 1, m, 0, gap);
            }
        },
        _ => {},
    }
}

/// Behind a value comes a gap and either a comma or a closing byte; neither goes on with a
/// number.
proof fn lemma_behind(b: Seq<u8>, q: nat, gap: Seq<u8>, c: u8)
    requires
        stands(b, q, gap),
        blank(gap),
        q + gap.len() < b.len(),
        b[(q + gap.len()) as int] == c,
        c == 0x2C || c == 0x5D || c == 0x7D || c == 0x3A,
    ensures
        ends(b, q),
        after_blanks(b, q) == q + gap.len(),
        c == 0x2C ==> after_comma(b, q) == q + gap.len() + 1,
        c != 0x2C ==> after_comma(b, q) == q + gap.len(),
{
    if gap.len() > 0 {
        assert(b[q as int + 0] == gap[0]);
        assert(is_blank(gap[0]));
    }
    lemma_gap(b, q, gap);
}

proof fn lemma_items_read(b: Seq<u8>, i: nat, a: Seq<Value>, k: nat, gap: Seq<u8>)
    requires
        k < a.len(),
        stands(b, i, written_items(a, k, gap)),
        stands(b, i + written_items(a, k, gap).len(), gap),
        i + written_items(a, k, gap).len() + gap.len() < b.len(),
        b[(i + written_items(a, k, gap).len() + gap.len()) as int] == 0x5D,
        forall|j: int| 0 <= j < a.len() ==> writable(#[trigger] a[j]),
        blank(gap),
    ensures
        items_at(b, i, a.take(k as int)) == Ok::<(Value, nat), Seq<char>>(
            (Value::Arr(a), i + written_items(a, k, gap).len() + gap.len() + 1),
        ),
    decreases a, a.len() - k,
{
    let v = a[k as int];
    let one = written(v, gap);
    let q = i + one.len();
    lemma_starts(v, gap);
    assert(a.take(k as int).push(v) =~= a.take(k as int + 1));
    if k + 1 == a.len() {
        lemma_behind(b, q, gap, 0x5D);
        lemma_reads(b, i, v, gap);
        assert(a.take(k as int + 1) =~= a);
        let shut = q + gap.len();
        assert(after_blanks(b, shut) == shut);
        assert(items_at(b, shut, a) == Ok::<(Value, nat), Seq<char>>((Value::Arr(a), shut + 1)));
    } else {
        let sep = gap + seq![0x2Cu8];
        let rest = written_items(a, k + 1, gap);
        lemma_split(b, i, one + sep, rest);
        lemma_split(b, i, one, sep);
        lemma_split(b, q, gap, seq![0x2Cu8]);
        assert(b[(q + gap.len()) as int + 0] == seq![0x2Cu8][0]);
        lemma_behind(b, q, gap, 0x2C);
        lemma_reads(b, i, v, gap);
        lemma_items_read(b, q + sep.len(), a, k + 1, gap);
    }
    lemma_not_closed(b, i, v, gap);
}

/// Where a value stands, neither an array nor an object is at its end.
proof fn lemma_not_closed(b: Seq<u8>, i: nat, v: Value, gap: Seq<u8>)
    requires
        stands(b, i, written(v, gap)),
        writable(v),
        blank(gap),
    ensures
        after_blanks(b, i) < b.len(),
        b[after_blanks(b, i) as int] != 0x5D,
{
    let w = written(v, gap);
    lemma_starts(v, gap);
    let j = i + gap.len();
    let body = w.skip(gap.len() as int);
    assert(w =~= gap + body);
    lemma_split(b, i, gap, body);
    assert(b[j as int + 0] == body[0]);
    assert(body[0] == w[gap.len() as int]);
    lemma_gap(b, i, gap);
    if let Value::Num(t) = v {
        let n = t.map_values(|c: char| c as u8);
        lemma_number_bytes(n);
        assert(body =~= n);
        assert(is_number_byte(n[0]));
    }
}

#[verifier::rlimit(60)]
proof fn lemma_members_read(
    b: Seq<u8>,
    i: nat,
    m: Seq<(Seq<char>, Value)>,
    k: nat,
    gap: Seq<u8>,
)
    requires
        k < m.len(),
        stands(b, i, written_members(m, k, gap)),
        stands(b, i + written_members(m, k, gap).len(), gap),
        i + written_members(m, k, gap).len() + gap.len() < b.len(),
        b[(i + written_members(m, k, gap).len() + gap.len()) as int] == 0x7D,
        distinct_keys(m),
        forall|j: int|
            0 <= j < m.len() ==> narrow((#[trigger] m[j]).0) && writable(m[j].1),
        blank(gap),
    ensures
        members_at(b, i, m.take(k as int)) == Ok::<(Value, nat), Seq<char>>(
            (Value::Obj(m), i + written_members(m, k, gap).len() + gap.len() + 1),
        ),
    decreases m, m.len() - k,
{
    let (key, v) = m[k as int];
    assert(m[k as int].0 == key && m[k as int].1 == v);
    let name = string_text(key);
    let colon = gap + seq![0x3Au8];
    let one = written(v, gap);
    let entry = gap + name + colon + one;
    let q = i + entry.len();
    let sep = gap + seq![0x2Cu8];
    let rest = written_members(m, k + 1, gap);
    if k + 1 < m.len() {
        lemma_split(b, i, entry + sep, rest);
        lemma_split(b, i, entry, sep);
        lemma_split(b, q, gap, seq![0x2Cu8]);
        assert(b[(q + gap.len()) as int + 0] == seq![0x2Cu8][0]);
        lemma_behind(b, q, gap, 0x2C);
    } else {
        lemma_behind(b, q, gap, 0x7D);
    }
    lemma_split(b, i, gap + name + colon, one);
    lemma_split(b, i, gap + name, colon);
    lemma_split(b, i, gap, name);
    let j = i + gap.len();
    let p = j + name.len();
    lemma_split(b, p, gap, seq![0x3Au8]);
    assert(b[(p + gap.len()) as int + 0] == seq![0x3Au8][0]);
    lemma_string_reads(b, j, key);
    lemma_gap(b, i, gap);
    lemma_behind(b, p, gap, 0x3A);
    lemma_reads(b, p + gap.len() + 1, v, gap);
    let done = m.take(k as int);
    assert forall|x: int| 0 <= x < k implies (#[trigger] done[x]).0 != key by {
        assert(done[x] == m[x]);
        assert(m[x].0 != m[k as int].0);
    }
    lemma_key_index_is(done, key, k as int);
    assert(put(done, key, v) =~= m.take(k as int + 1));
    if k + 1 < m.len() {
        lemma_members_read(b, q + sep.len(), m, k + 1, gap);
    } else {
        assert(m.take(k as int + 1) =~= m);
        let shut = q + gap.len();
        assert(after_blanks(b, shut) == shut);
        assert(members_at(b, shut, m) == Ok::<(Value, nat), Seq<char>>((Value::Obj(m), shut + 1)));
    }
}

/// Reading gives back what was written, wherever in a text it stands and whatever blanks are
/// between its parts, and ends right behind it.
pub proof fn law_what_is_written_is_read(b: Seq<u8>, i: nat, v: Value, gap: Seq<u8>)
    requires
        stands(b, i, written(v, gap)),
        writable(v),
        blank(gap),
        i + written(v, gap).len() < b.len() ==> !is_number_byte(
            b[(i + written(v, gap).len()) as int],
        ),
    ensures
        value_at(b, i) == Ok::<(Value, nat), Seq<char>>((v, i + written(v, gap).len())),
{
    lemma_reads(b, i, v, gap);
}

/// Blanks are the tabulators and line feeds, the space, the next line and the no-break
/// space; in front of a value they do not matter.
pub proof fn law_blanks_do_not_matter(b: Seq<u8>, i: nat, c: u8)
    ensures
        is_blank(c) <==> c == 9 || c == 10 || c == 11 || c == 12 || c == 13 || c == 32 || c
            == 0x85 || c == 0xA0,
        i < b.len() && is_blank(b[i as int]) ==> value_at(b, i) == value_at(b, i + 1),
{
}

/// A literal goes by its first letter, and takes as many bytes as it has, or all that are
/// left.
pub proof fn law_literals_go_by_their_letter(b: Seq<u8>, i: nat)
    requires
        i < b.len(),
    ensures
        ({
            let end = |n: nat|
                if i + n < b.len() {
                    i + n
                } else {
                    b.len()
                };
            &&& b[i as int] == 0x74 ==> value_at(b, i) == Ok::<(Value, nat), Seq<char>>(
                (Value::Bool(true), end(4)),
            )
            &&& b[i as int] == 0x66 ==> value_at(b, i) == Ok::<(Value, nat), Seq<char>>(
                (Value::Bool(false), end(5)),
            )
            &&& b[i as int] == 0x6E ==> value_at(b, i) == Ok::<(Value, nat), Seq<char>>(
                (Value::Null, end(4)),
            )
        }),
{
}

/// A string that no quote closes ends with the text.
pub proof fn law_strings_may_end_with_the_text(b: Seq<u8>, i: nat, s: Seq<char>)
    requires
        narrow(s),
        stands(b, i, seq![0x22u8] + escaped_text(s)),
        b.len() == i + 1 + escaped_text(s).len(),
    ensures
        value_at(b, i) == Ok::<(Value, nat), Seq<char>>((Value::Str(s), b.len())),
{
    let open = seq![0x22u8];
    lemma_split(b, i, open, escaped_text(s));
    assert(b[i as int + 0] == open[0]);
    lemma_open_quoted(b, i + 1, s);
}

proof fn lemma_open_quoted(b: Seq<u8>, i: nat, s: Seq<char>)
    requires
        stands(b, i, escaped_text(s)),
        i + escaped_text(s).len() == b.len(),
        narrow(s),
    ensures
        quoted(b, i) == (s, b.len()),
    decreases s.len(),
{
    if s.len() == 0 {
        assert(s =~= seq![]);
    } else {
        let c = s[0];
        let rest = s.drop_first();
        let first = escaped(c);
        assert forall|k: int| 0 <= k < rest.len() implies 0 <= (#[trigger] rest[k]) as int <= 0xFF by {
            assert(rest[k] == s[k + 1]);
        }
        lemma_split(b, i, first, escaped_text(rest));
        lemma_open_quoted(b, i + first.len(), rest);
        assert(b[i as int + 0] == first[0]);
        assert(s =~= seq![c] + rest);
        assert(0 <= c as int <= 0xFF);
        if first.len() == 2 {
            assert(b[i as int + 1] == first[1]);
            assert(quoted(b, i).0 =~= s);
        } else {
            assert(first[0] as char == c);
            assert(quoted(b, i).0 =~= s);
        }
    }
}

/// What is there instead of a value is an error that says so: nothing but blanks, no number,
/// no key in quotes, or no colon behind one.
pub proof fn law_other_texts_are_refused(b: Seq<u8>, i: nat)
    requires
        i <= b.len(),
    ensures
        (forall|k: int| i <= k < b.len() ==> is_blank(#[trigger] b[k])) ==> value_at(b, i) == Err::<
            (Value, nat),
            Seq<char>,
        >("unexpected end"@),
        i < b.len() && !is_blank(b[i as int]) && b[i as int] != 0x22 ==> string_at(b, i) == Err::<
            (Seq<char>, nat),
            Seq<char>,
        >("expected string"@),
        i < b.len() && !is_blank(b[i as int]) && b[i as int] != 0x22 && b[i as int] != 0x7D
            ==> members_at(b, i, seq![]) == Err::<(Value, nat), Seq<char>>("expected string"@),
{
    if forall|k: int| i <= k < b.len() ==> is_blank(#[trigger] b[k]) {
        lemma_all_blank(b, i);
    }
}

proof fn lemma_all_blank(b: Seq<u8>, i: nat)
    requires
        i <= b.len(),
        forall|k: int| i <= k < b.len() ==> is_blank(#[trigger] b[k]),
    ensures
        after_blanks(b, i) == b.len(),
    decreases b.len() - i,
{
    if i < b.len() {
        lemma_all_blank(b, i + 1);
    }
}

/// All bytes are digits.
pub open spec fn digits(d: Seq<u8>) -> bool {
    forall|i: int| 0 <= i < d.len() ==> 0x30 <= #[trigger] d[i] <= 0x39
}

/// A sign, or none.
pub open spec fn sign(s: Seq<u8>) -> bool {
    s.len() == 0 || s.len() == 1 && (s[0] == 0x2B || s[0] == 0x2D)
}

/// A decimal in its parts: a sign, digits, a point and more digits, and an exponent. There
/// are digits before the point or behind it, and in the exponent if there is one.
pub open spec fn decimal_of(
    s: Seq<u8>,
    whole: Seq<u8>,
    fraction: Option<Seq<u8>>,
    exponent: Option<(u8, Seq<u8>, Seq<u8>)>,
) -> Seq<u8> {
    s + whole + match fraction {
        Some(f) => seq![0x2Eu8] + f,
        None => seq![],
    } + match exponent {
        Some((e, es, d)) => seq![e] + es + d,
        None => seq![],
    }
}

pub open spec fn well_parted(
    s: Seq<u8>,
    whole: Seq<u8>,
    fraction: Option<Seq<u8>>,
    exponent: Option<(u8, Seq<u8>, Seq<u8>)>,
) -> bool {
    &&& sign(s) && digits(whole)
    &&& fraction matches Some(f) ==> digits(f)
    &&& whole.len() > 0 || (fraction matches Some(f) && f.len() > 0)
    &&& exponent matches Some((e, es, d)) ==> (e == 0x65 || e == 0x45) && sign(es) && digits(d)
        && d.len() > 0
}

proof fn lemma_digits_run(t: Seq<u8>, i: nat, d: Seq<u8>)
    requires
        stands(t, i, d),
        digits(d),
        i + d.len() < t.len() ==> !is_digit(t[(i + d.len()) as int]),
    ensures
        digits_end(t, i) == i + d.len(),
    decreases d.len(),
{
    if d.len() > 0 {
        let rest = d.drop_first();
        assert(d =~= seq![d[0]] + rest);
        lemma_split(t, i, seq![d[0]], rest);
        assert(t[i as int + 0] == d[0]);
        assert forall|k: int| 0 <= k < rest.len() implies 0x30 <= #[trigger] rest[k] <= 0x39 by {
            assert(rest[k] == d[k + 1]);
        }
        lemma_digits_run(t, i + 1, rest);
    }
}

/// Where the digits and the fraction of a decimal end.
proof fn lemma_mantissa(t: Seq<u8>, s: Seq<u8>, whole: Seq<u8>, fraction: Option<Seq<u8>>)
    requires
        sign(s),
        digits(whole),
        fraction matches Some(f) ==> digits(f),
        whole.len() > 0 || fraction is Some,
        ({
            let point = match fraction {
                Some(f) => seq![0x2Eu8] + f,
                None => seq![],
            };
            let end = s.len() + whole.len() + point.len();
            &&& stands(t, 0, s + whole + point)
            &&& end < t.len() ==> t[end as int] == 0x65 || t[end as int] == 0x45
        }),
    ensures
        after_sign(t, 0) == s.len(),
        digits_end(t, s.len()) == s.len() + whole.len(),
        mantissa_end(t) == s.len() + whole.len() + match fraction {
            Some(f) => 1 + f.len(),
            None => 0,
        },
{
    let point = match fraction {
        Some(f) => seq![0x2Eu8] + f,
        None => seq![],
    };
    lemma_split(t, 0, s + whole, point);
    lemma_split(t, 0, s, whole);
    let start = s.len();
    let mid = start + whole.len();
    if start > 0 {
        assert(t[0int + 0] == s[0]);
    }
    if whole.len() > 0 {
        assert(t[start as int + 0] == whole[0]);
    }
    if point.len() > 0 {
        assert(t[mid as int + 0] == point[0]);
    }
    lemma_digits_run(t, start, whole);
    if let Some(f) = fraction {
        lemma_split(t, mid, seq![0x2Eu8], f);
        lemma_digits_run(t, mid + 1, f);
    }
}

/// Every decimal is a number.
#[verifier::rlimit(60)]
pub proof fn law_decimals_are_numbers(
    s: Seq<u8>,
    whole: Seq<u8>,
    fraction: Option<Seq<u8>>,
    exponent: Option<(u8, Seq<u8>, Seq<u8>)>,
)
    requires
        well_parted(s, whole, fraction, exponent),
    ensures
        is_number(decimal_of(s, whole, fraction, exponent)),
{
    let t = decimal_of(s, whole, fraction, exponent);
    let tail = match exponent {
        Some((e, es, d)) => seq![e] + es + d,
        None => seq![],
    };
    let point = match fraction {
        Some(f) => seq![0x2Eu8] + f,
        None => seq![],
    };
    assert(t =~= (s + whole + point) + tail);
    lemma_split(t, 0, s + whole + point, tail);
    let end = s.len() + whole.len() + point.len();
    if tail.len() > 0 {
        assert(t[end as int + 0] == tail[0]);
    }
    lemma_mantissa(t, s, whole, fraction);
    if let Some((e, es, d)) = exponent {
        lemma_split(t, end, seq![e] + es, d);
        lemma_split(t, end, seq![e], es);
        let from = end + 1 + es.len();
        if es.len() > 0 {
            assert(t[(end + 1) as int + 0] == es[0]);
        }
        assert(t[from as int + 0] == d[0]);
        lemma_digits_run(t, from, d);
    }
}

/// Every number is a decimal: it comes apart into the parts of one.
pub proof fn law_numbers_are_decimals(t: Seq<u8>) -> (parts: (
    Seq<u8>,
    Seq<u8>,
    Option<Seq<u8>>,
    Option<(u8, Seq<u8>, Seq<u8>)>,
))
    requires
        is_number(t),
    ensures
        well_parted(parts.0, parts.1, parts.2, parts.3),
        t == decimal_of(parts.0, parts.1, parts.2, parts.3),
{
    let start = after_sign(t, 0);
    let mid = digits_end(t, start);
    let end = mantissa_end(t);
    lemma_digits(t, start);
    let s = t.take(start as int);
    let whole = t.subrange(start as int, mid as int);
    let has_point = mid < t.len() && t[mid as int] == 0x2E;
    if has_point {
        lemma_digits(t, mid + 1);
    }
    let fraction = if has_point {
        Some(t.subrange(mid as int + 1, end as int))
    } else {
        None
    };
    let from = after_sign(t, end + 1);
    let exponent = if end == t.len() {
        None
    } else {
        lemma_digits(t, from);
        Some((t[end as int], t.subrange(end as int + 1, from as int), t.skip(from as int)))
    };
    assert(t =~= decimal_of(s, whole, fraction, exponent));
    (s, whole, fraction, exponent)
}

} // verus!
