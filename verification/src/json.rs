//! A tiny reader for the JSON that the strategy builder emits.
//!
//! It reads objects, arrays, strings, numbers, booleans and null, and is lenient where
//! the builder never strays: commas may be missing, a literal is recognised by its
//! first letter, and a string may end with the text. Numbers stay text: their value is
//! the host's to compute.

use crate::entries::{
    distinct_keys, key_index, keyed, lemma_key_index, lemma_put_distinct, lemma_same_keys, lookup,
    position, put,
};
use vstd::prelude::*;
use vstd::utf8::encode_utf8;

verus! {

/// A JSON value. A number is the text it was written as; an object holds each key once.
#[derive(Debug)]
pub enum Json {
    Null,
    Bool(bool),
    Num(String),
    Str(String),
    Arr(Vec<Json>),
    Obj(Vec<(String, Json)>),
}

/// A JSON value as mathematics.
#[verifier::ext_equal]
pub enum Value {
    Null,
    Bool(bool),
    Num(Seq<char>),
    Str(Seq<char>),
    Arr(Seq<Value>),
    Obj(Seq<(Seq<char>, Value)>),
}

impl Json {
    pub open spec fn view(&self) -> Value
        decreases self,
    {
        match self {
            Json::Null => Value::Null,
            Json::Bool(b) => Value::Bool(*b),
            Json::Num(s) => Value::Num(s@),
            Json::Str(s) => Value::Str(s@),
            Json::Arr(a) => Value::Arr(
                Seq::new(
                    a@.len(),
                    |i: int|
                        if 0 <= i < a@.len() {
                            a@[i].view()
                        } else {
                            Value::Null
                        },
                ),
            ),
            Json::Obj(m) => Value::Obj(
                Seq::new(
                    m@.len(),
                    |i: int|
                        if 0 <= i < m@.len() {
                            (m@[i].0@, m@[i].1.view())
                        } else {
                            (seq![], Value::Null)
                        },
                ),
            ),
        }
    }
}

/// The elements of an array.
pub open spec fn all_views(a: Seq<Json>) -> Seq<Value> {
    Seq::new(a.len(), |i: int| a[i]@)
}

/// The entries of an object.
pub open spec fn entry_views(m: Seq<(String, Json)>) -> Seq<(Seq<char>, Value)> {
    Seq::new(m.len(), |i: int| (m[i].0@, m[i].1@))
}

proof fn lemma_view_arr(j: Json, a: Vec<Json>)
    requires
        j == Json::Arr(a),
    ensures
        j@ == Value::Arr(all_views(a@)),
{
    assert(j@->Arr_0 =~= all_views(a@));
}

proof fn lemma_view_obj(j: Json, m: Vec<(String, Json)>)
    requires
        j == Json::Obj(m),
    ensures
        j@ == Value::Obj(entry_views(m@)),
{
    assert(j@->Obj_0 =~= entry_views(m@));
}

/// A blank: one of the white-space characters below 256.
pub open spec fn is_blank(c: u8) -> bool {
    9 <= c <= 13 || c == 32 || c == 0x85 || c == 0xA0
}

/// The first position from `i` on that is no blank.
pub open spec fn after_blanks(b: Seq<u8>, i: nat) -> nat
    decreases b.len() - i,
{
    if i < b.len() && is_blank(b[i as int]) {
        after_blanks(b, i + 1)
    } else {
        i
    }
}

/// What an escaped byte stands for.
pub open spec fn unescaped(c: u8) -> char {
    if c == 0x6E {
        '\n'
    } else if c == 0x74 {
        '\t'
    } else {
        c as char
    }
}

/// The text from `i` up to the closing quote, and where that quote stands. Each byte is
/// a character of its own.
pub open spec fn quoted(b: Seq<u8>, i: nat) -> (Seq<char>, nat)
    decreases b.len() - i,
{
    if i >= b.len() || b[i as int] == 0x22 {
        (seq![], i)
    } else if b[i as int] == 0x5C && i + 1 < b.len() {
        let (rest, end) = quoted(b, i + 2);
        (seq![unescaped(b[(i + 1) as int])] + rest, end)
    } else {
        let (rest, end) = quoted(b, i + 1);
        (seq![b[i as int] as char] + rest, end)
    }
}

/// `i + n`, but not past the end.
pub open spec fn forward(b: Seq<u8>, i: nat, n: nat) -> nat {
    if i + n < b.len() {
        i + n
    } else {
        b.len()
    }
}

/// A string at `i`, and the position behind it.
pub open spec fn string_at(b: Seq<u8>, i: nat) -> Result<(Seq<char>, nat), Seq<char>> {
    let j = after_blanks(b, i);
    if j >= b.len() || b[j as int] != 0x22 {
        Err("expected string"@)
    } else {
        let (text, end) = quoted(b, j + 1);
        Ok((text, forward(b, end, 1)))
    }
}

pub open spec fn is_digit(c: u8) -> bool {
    0x30 <= c <= 0x39
}

/// A byte that can stand in a number.
pub open spec fn is_number_byte(c: u8) -> bool {
    is_digit(c) || c == 0x2D || c == 0x2B || c == 0x2E || c == 0x65 || c == 0x45
}

/// The end of the run of number bytes that starts at `i`.
pub open spec fn number_end(b: Seq<u8>, i: nat) -> nat
    decreases b.len() - i,
{
    if i < b.len() && is_number_byte(b[i as int]) {
        number_end(b, i + 1)
    } else {
        i
    }
}

/// The end of the run of digits that starts at `i`.
pub open spec fn digits_end(b: Seq<u8>, i: nat) -> nat
    decreases b.len() - i,
{
    if i < b.len() && is_digit(b[i as int]) {
        digits_end(b, i + 1)
    } else {
        i
    }
}

/// The position behind a sign at `i`, if there is one.
pub open spec fn after_sign(t: Seq<u8>, i: nat) -> nat {
    if i < t.len() && (t[i as int] == 0x2D || t[i as int] == 0x2B) {
        i + 1
    } else {
        i
    }
}

/// The position behind the integer part and the fraction of a number.
pub open spec fn mantissa_end(t: Seq<u8>) -> nat {
    let whole = digits_end(t, after_sign(t, 0));
    if whole < t.len() && t[whole as int] == 0x2E {
        digits_end(t, whole + 1)
    } else {
        whole
    }
}

/// A decimal number: a sign or none, digits with at most one point among or beside
/// them, and an exponent or none.
pub open spec fn is_number(t: Seq<u8>) -> bool {
    let start = after_sign(t, 0);
    let whole = digits_end(t, start);
    let end = mantissa_end(t);
    let exponent = after_sign(t, end + 1);
    &&& whole > start || end > whole + 1
    &&& end == t.len() || ((t[end as int] == 0x65 || t[end as int] == 0x45) && exponent < t.len()
        && digits_end(t, exponent) == t.len())
}

/// Bytes as characters, one for one.
pub open spec fn as_chars(t: Seq<u8>) -> Seq<char> {
    t.map_values(|c: u8| c as char)
}

/// A number at `i`, and the position behind it.
pub open spec fn number_at(b: Seq<u8>, i: nat) -> Result<(Value, nat), Seq<char>> {
    let end = number_end(b, i);
    let t = b.subrange(i as int, end as int);
    if is_number(t) {
        Ok((Value::Num(as_chars(t)), end))
    } else {
        Err("bad number"@)
    }
}

/// Blanks, and a comma if there is one.
pub open spec fn after_comma(b: Seq<u8>, i: nat) -> nat {
    let j = after_blanks(b, i);
    if j < b.len() && b[j as int] == 0x2C {
        j + 1
    } else {
        j
    }
}

/// A value at `i`, and the position behind it.
pub open spec fn value_at(b: Seq<u8>, i: nat) -> Result<(Value, nat), Seq<char>>
    decreases b.len() - i, 0nat,
    via value_at_decreases
{
    let j = after_blanks(b, i);
    if j >= b.len() {
        Err("unexpected end"@)
    } else if b[j as int] == 0x7B {
        members_at(b, j + 1, seq![])
    } else if b[j as int] == 0x5B {
        items_at(b, j + 1, seq![])
    } else if b[j as int] == 0x22 {
        match string_at(b, j) {
            Ok((s, end)) => Ok((Value::Str(s), end)),
            Err(e) => Err(e),
        }
    } else if b[j as int] == 0x74 {
        Ok((Value::Bool(true), forward(b, j, 4)))
    } else if b[j as int] == 0x66 {
        Ok((Value::Bool(false), forward(b, j, 5)))
    } else if b[j as int] == 0x6E {
        Ok((Value::Null, forward(b, j, 4)))
    } else {
        number_at(b, j)
    }
}

/// The rest of an object from `i` on, after the entries `m`.
pub open spec fn members_at(b: Seq<u8>, i: nat, m: Seq<(Seq<char>, Value)>) -> Result<
    (Value, nat),
    Seq<char>,
>
    decreases b.len() - i, 1nat,
    via members_at_decreases
{
    let j = after_blanks(b, i);
    if j < b.len() && b[j as int] == 0x7D {
        Ok((Value::Obj(m), j + 1))
    } else {
        match string_at(b, j) {
            Err(e) => Err(e),
            Ok((key, p)) => {
                let colon = after_blanks(b, p);
                if colon >= b.len() || b[colon as int] != 0x3A {
                    Err("expected :"@)
                } else {
                    match value_at(b, colon + 1) {
                        Err(e) => Err(e),
                        Ok((v, q)) => {
                            let next = after_comma(b, q);
                            if i < next <= b.len() {
                                members_at(b, next, put(m, key, v))
                            } else {
                                Err("unexpected end"@)
                            }
                        },
                    }
                }
            },
        }
    }
}

/// The rest of an array from `i` on, after the elements `a`.
pub open spec fn items_at(b: Seq<u8>, i: nat, a: Seq<Value>) -> Result<(Value, nat), Seq<char>>
    decreases b.len() - i, 1nat,
{
    let j = after_blanks(b, i);
    if j < b.len() && b[j as int] == 0x5D {
        Ok((Value::Arr(a), j + 1))
    } else {
        match value_at(b, i) {
            Err(e) => Err(e),
            Ok((v, q)) => {
                let next = after_comma(b, q);
                if i < next <= b.len() {
                    items_at(b, next, a.push(v))
                } else {
                    Err("unexpected end"@)
                }
            },
        }
    }
}

#[via_fn]
proof fn value_at_decreases(b: Seq<u8>, i: nat) {
    lemma_after_blanks(b, i);
}

#[via_fn]
proof fn members_at_decreases(b: Seq<u8>, i: nat, m: Seq<(Seq<char>, Value)>) {
    let j = after_blanks(b, i);
    lemma_after_blanks(b, i);
    lemma_string_at(b, j);
    if let Ok((key, p)) = string_at(b, j) {
        lemma_after_blanks(b, p);
    }
}

pub proof fn lemma_after_blanks(b: Seq<u8>, i: nat)
    ensures
        i <= after_blanks(b, i),
        i <= b.len() ==> after_blanks(b, i) <= b.len(),
        after_blanks(b, after_blanks(b, i)) == after_blanks(b, i),
    decreases b.len() - i,
{
    if i < b.len() && is_blank(b[i as int]) {
        lemma_after_blanks(b, i + 1);
    }
}

proof fn lemma_quoted(b: Seq<u8>, i: nat)
    ensures
        i <= quoted(b, i).1,
        i <= b.len() ==> quoted(b, i).1 <= b.len(),
    decreases b.len() - i,
{
    if i >= b.len() || b[i as int] == 0x22 {
    } else if b[i as int] == 0x5C && i + 1 < b.len() {
        lemma_quoted(b, i + 2);
    } else {
        lemma_quoted(b, i + 1);
    }
}

/// A string that was read moves the position on, within the text.
proof fn lemma_string_at(b: Seq<u8>, i: nat)
    ensures
        string_at(b, i) matches Ok((s, end)) ==> i < end <= b.len(),
{
    lemma_after_blanks(b, i);
    let j = after_blanks(b, i);
    if j < b.len() {
        lemma_quoted(b, j + 1);
    }
}

proof fn lemma_number_end(b: Seq<u8>, i: nat)
    ensures
        i <= number_end(b, i),
        i <= b.len() ==> number_end(b, i) <= b.len(),
    decreases b.len() - i,
{
    if i < b.len() && is_number_byte(b[i as int]) {
        lemma_number_end(b, i + 1);
    }
}

/// A number that was read moves the position on, within the text.
proof fn lemma_number_at(b: Seq<u8>, i: nat)
    requires
        i < b.len(),
    ensures
        number_at(b, i) matches Ok((v, end)) ==> i < end <= b.len(),
{
    lemma_number_end(b, i);
    if number_end(b, i) == i {
        let t = b.subrange(i as int, i as int);
        assert(t.len() == 0);
        assert(digits_end(t, 0) == 0);
        assert(!is_number(t));
    }
}

/// Every value that was read moves the position on, within the text.
pub proof fn lemma_value_moves_on(b: Seq<u8>, i: nat)
    ensures
        value_at(b, i) matches Ok((v, end)) ==> i < end <= b.len(),
    decreases b.len() - i, 0nat,
{
    lemma_after_blanks(b, i);
    let j = after_blanks(b, i);
    if j < b.len() {
        if b[j as int] == 0x7B {
            lemma_members_move_on(b, j + 1, seq![]);
        } else if b[j as int] == 0x5B {
            lemma_items_move_on(b, j + 1, seq![]);
        } else if b[j as int] == 0x22 {
            lemma_string_at(b, j);
        } else {
            lemma_number_at(b, j);
        }
    }
}

proof fn lemma_members_move_on(b: Seq<u8>, i: nat, m: Seq<(Seq<char>, Value)>)
    ensures
        members_at(b, i, m) matches Ok((v, end)) ==> i < end <= b.len(),
    decreases b.len() - i, 1nat,
{
    lemma_after_blanks(b, i);
    let j = after_blanks(b, i);
    lemma_string_at(b, j);
    if let Ok((key, p)) = string_at(b, j) {
        lemma_after_blanks(b, p);
        let colon = after_blanks(b, p);
        if colon < b.len() {
            if let Ok((v, q)) = value_at(b, colon + 1) {
                let next = after_comma(b, q);
                if i < next <= b.len() {
                    lemma_members_move_on(b, next, put(m, key, v));
                }
            }
        }
    }
}

proof fn lemma_items_move_on(b: Seq<u8>, i: nat, a: Seq<Value>)
    ensures
        items_at(b, i, a) matches Ok((v, end)) ==> i < end <= b.len(),
    decreases b.len() - i, 1nat,
{
    lemma_after_blanks(b, i);
    if let Ok((v, q)) = value_at(b, i) {
        let next = after_comma(b, q);
        if i < next <= b.len() {
            lemma_items_move_on(b, next, a.push(v));
        }
    }
}

/// In `v`, and in whatever it holds, no object holds a key twice.
pub open spec fn keys_once(v: Value) -> bool
    decreases v,
{
    match v {
        Value::Arr(a) => forall|i: int| 0 <= i < a.len() ==> keys_once(#[trigger] a[i]),
        Value::Obj(m) => distinct_keys(m) && forall|i: int|
            0 <= i < m.len() ==> keys_once((#[trigger] m[i]).1),
        _ => true,
    }
}

/// However often a text writes a key, the object that is read holds it once; so does
/// every object inside it.
pub proof fn law_objects_hold_each_key_once(b: Seq<u8>, i: nat)
    ensures
        value_at(b, i) matches Ok((v, _)) ==> keys_once(v),
    decreases b.len() - i, 0nat,
{
    lemma_after_blanks(b, i);
    let j = after_blanks(b, i);
    if j < b.len() {
        if b[j as int] == 0x7B {
            lemma_members_once(b, j + 1, seq![]);
        } else if b[j as int] == 0x5B {
            lemma_items_once(b, j + 1, seq![]);
        }
    }
}

proof fn lemma_members_once(b: Seq<u8>, i: nat, m: Seq<(Seq<char>, Value)>)
    requires
        distinct_keys(m),
        forall|k: int| 0 <= k < m.len() ==> keys_once((#[trigger] m[k]).1),
    ensures
        members_at(b, i, m) matches Ok((v, _)) ==> keys_once(v),
    decreases b.len() - i, 1nat,
{
    lemma_after_blanks(b, i);
    let j = after_blanks(b, i);
    lemma_string_at(b, j);
    if let Ok((key, p)) = string_at(b, j) {
        lemma_after_blanks(b, p);
        let colon = after_blanks(b, p);
        if colon < b.len() {
            if let Ok((v, q)) = value_at(b, colon + 1) {
                law_objects_hold_each_key_once(b, colon + 1);
                let next = after_comma(b, q);
                if i < next <= b.len() {
                    let more = put(m, key, v);
                    lemma_put_distinct(m, key, v);
                    assert forall|k: int| 0 <= k < more.len() implies keys_once(
                        (#[trigger] more[k]).1,
                    ) by {
                        if more[k] != (key, v) {
                            assert(more[k] == m[k]);
                        }
                    }
                    lemma_members_once(b, next, more);
                }
            }
        }
    }
}

proof fn lemma_items_once(b: Seq<u8>, i: nat, a: Seq<Value>)
    requires
        forall|k: int| 0 <= k < a.len() ==> keys_once(#[trigger] a[k]),
    ensures
        items_at(b, i, a) matches Ok((v, _)) ==> keys_once(v),
    decreases b.len() - i, 1nat,
{
    lemma_after_blanks(b, i);
    if let Ok((v, q)) = value_at(b, i) {
        law_objects_hold_each_key_once(b, i);
        let next = after_comma(b, q);
        if i < next <= b.len() {
            lemma_items_once(b, next, a.push(v));
        }
    }
}

/// What a key stands for in such an object is such a value.
pub proof fn lemma_keys_once_inside(m: Seq<(Seq<char>, Value)>, key: Seq<char>)
    requires
        keys_once(Value::Obj(m)),
    ensures
        lookup(m, key) matches Some(v) ==> keys_once(v),
{
    lemma_key_index(m, key);
}

impl Json {
    /// What `key` stands for in an object.
    pub fn get(&self, key: &str) -> (r: Option<&Json>)
        ensures
            match (self@, r) {
                (Value::Obj(m), Some(j)) => lookup(m, key@) == Some(j@),
                (Value::Obj(m), None) => lookup(m, key@) is None,
                (_, r) => r is None,
            },
    {
        match self {
            Json::Obj(m) => {
                proof {
                    lemma_view_obj(*self, *m);
                }
                let k: usize = key_position(m, key);
                if k < m.len() {
                    Some(&m[k].1)
                } else {
                    None
                }
            },
            _ => None,
        }
    }

    /// The elements of an array.
    pub fn as_array(&self) -> (r: Option<&Vec<Json>>)
        ensures
            match (self@, r) {
                (Value::Arr(a), Some(v)) => all_views(v@) == a,
                (Value::Arr(a), None) => false,
                (_, r) => r is None,
            },
    {
        match self {
            Json::Arr(a) => {
                proof {
                    lemma_view_arr(*self, *a);
                }
                Some(a)
            },
            _ => None,
        }
    }

    /// The entries of an object.
    pub fn as_object(&self) -> (r: Option<&Vec<(String, Json)>>)
        ensures
            match (self@, r) {
                (Value::Obj(m), Some(v)) => entry_views(v@) == m,
                (Value::Obj(m), None) => false,
                (_, r) => r is None,
            },
    {
        match self {
            Json::Obj(m) => {
                proof {
                    lemma_view_obj(*self, *m);
                }
                Some(m)
            },
            _ => None,
        }
    }

    /// The text of a string.
    pub fn as_str(&self) -> (r: Option<&String>)
        ensures
            match (self@, r) {
                (Value::Str(s), Some(t)) => t@ == s,
                (Value::Str(s), None) => false,
                (_, r) => r is None,
            },
    {
        match self {
            Json::Str(s) => Some(s),
            _ => None,
        }
    }

    /// The text of a number.
    pub fn as_number(&self) -> (r: Option<&String>)
        ensures
            match (self@, r) {
                (Value::Num(s), Some(t)) => t@ == s,
                (Value::Num(s), None) => false,
                (_, r) => r is None,
            },
    {
        match self {
            Json::Num(s) => Some(s),
            _ => None,
        }
    }
}

/// Where `key` stands among the entries of an object, or their number.
fn key_position(m: &Vec<(String, Json)>, key: &str) -> (k: usize)
    ensures
        k == key_index(entry_views(m@), key@),
        k <= m@.len(),
{
    proof {
        lemma_same_keys(entry_views(m@), keyed(m@), key@);
    }
    position(m.as_slice(), key)
}

/// Lets `key` stand for `v`.
fn insert(m: &mut Vec<(String, Json)>, key: String, v: Json)
    ensures
        entry_views(final(m)@) == put(entry_views(old(m)@), key@, v@),
{
    let k: usize = key_position(m, key.as_str());
    let ghost before = entry_views(m@);
    let ghost kv = (key@, v@);
    if k < m.len() {
        m.set(k, (key, v));
        assert(entry_views(m@) =~= before.update(k as int, kv));
    } else {
        m.push((key, v));
        assert(entry_views(m@) =~= before.push(kv));
    }
}

/// Moves past blanks.
pub fn skip_ws(b: &[u8], i: &mut usize)
    ensures
        *final(i) == after_blanks(b@, *old(i) as nat),
{
    let ghost goal = after_blanks(b@, *i as nat);
    while *i < b.len() && (9 <= b[*i] && b[*i] <= 13 || b[*i] == 32 || b[*i] == 0x85 || b[*i]
        == 0xA0)
        invariant
            after_blanks(b@, *i as nat) == goal,
        decreases b@.len() - *i,
    {
        *i = *i + 1;
    }
}

/// Moves on by `n`, but not past the end.
fn move_on(b: &[u8], i: &mut usize, n: usize)
    requires
        *old(i) <= b@.len(),
    ensures
        *final(i) == forward(b@, *old(i) as nat, n as nat),
{
    if b.len() - *i > n {
        *i = *i + n;
    } else {
        *i = b.len();
    }
}

fn failure<T>(why: &str) -> (r: Result<T, String>)
    ensures
        r matches Err(e) && e@ == why@,
{
    Err(why.to_owned())
}

/// Reads a string.
pub fn parse_str(b: &[u8], i: &mut usize) -> (r: Result<String, String>)
    requires
        *old(i) <= b@.len(),
    ensures
        match string_at(b@, *old(i) as nat) {
            Ok((s, end)) => r matches Ok(t) && t@ == s && *final(i) == end,
            Err(e) => r matches Err(t) && t@ == e,
        },
{
    skip_ws(b, i);
    if *i >= b.len() || b[*i] != 0x22 {
        return failure("expected string");
    }
    *i = *i + 1;
    let ghost goal = quoted(b@, *i as nat);
    let mut s = String::new();
    assert(s@ + goal.0 =~= goal.0);
    while *i < b.len() && b[*i] != 0x22
        invariant
            *i <= b@.len(),
            s@ + quoted(b@, *i as nat).0 == goal.0,
            quoted(b@, *i as nat).1 == goal.1,
        decreases b@.len() - *i,
    {
        let ghost at = *i as nat;
        let ghost before = s@;
        if b[*i] == 0x5C && *i + 1 < b.len() {
            *i = *i + 1;
            let c = if b[*i] == 0x6E {
                '\n'
            } else if b[*i] == 0x74 {
                '\t'
            } else {
                b[*i] as char
            };
            s.push(c);
        } else {
            s.push(b[*i] as char);
        }
        *i = *i + 1;
        assert(s@ + quoted(b@, *i as nat).0 =~= before + quoted(b@, at).0);
    }
    assert(s@ =~= goal.0);
    move_on(b, i, 1);
    Ok(s)
}

/// The end of the run of digits that starts at `i`.
fn skip_digits(b: &Vec<u8>, i: usize) -> (r: usize)
    requires
        i <= b@.len(),
    ensures
        r == digits_end(b@, i as nat),
        r <= b@.len(),
{
    let ghost goal = digits_end(b@, i as nat);
    let mut k: usize = i;
    while k < b.len() && 0x30 <= b[k] && b[k] <= 0x39
        invariant
            k <= b@.len(),
            digits_end(b@, k as nat) == goal,
        decreases b@.len() - k,
    {
        k = k + 1;
    }
    k
}

fn skip_sign(t: &Vec<u8>, i: usize) -> (r: usize)
    requires
        i <= t@.len(),
    ensures
        r == after_sign(t@, i as nat),
        r <= t@.len(),
{
    if i < t.len() && (t[i] == 0x2D || t[i] == 0x2B) {
        i + 1
    } else {
        i
    }
}

/// Whether a run of number bytes is a decimal number.
fn number_is_valid(t: &Vec<u8>) -> (r: bool)
    ensures
        r == is_number(t@),
{
    let start: usize = skip_sign(t, 0);
    let whole: usize = skip_digits(t, start);
    let end: usize = if whole < t.len() && t[whole] == 0x2E {
        skip_digits(t, whole + 1)
    } else {
        whole
    };
    if whole == start && (end == whole || end == whole + 1) {
        return false;
    }
    if end == t.len() {
        return true;
    }
    if t[end] != 0x65 && t[end] != 0x45 {
        return false;
    }
    let exponent: usize = skip_sign(t, end + 1);
    exponent < t.len() && skip_digits(t, exponent) == t.len()
}

/// Reads a number, as text.
fn parse_num(b: &[u8], i: &mut usize) -> (r: Result<Json, String>)
    requires
        *old(i) <= b@.len(),
    ensures
        match number_at(b@, *old(i) as nat) {
            Ok((v, end)) => r matches Ok(j) && j@ == v && *final(i) == end,
            Err(e) => r matches Err(t) && t@ == e,
        },
{
    let ghost start = *i as int;
    let ghost goal = number_end(b@, *i as nat);
    let mut run: Vec<u8> = Vec::new();
    let mut text = String::new();
    while *i < b.len() && (0x30 <= b[*i] && b[*i] <= 0x39 || b[*i] == 0x2D || b[*i] == 0x2B
        || b[*i] == 0x2E || b[*i] == 0x65 || b[*i] == 0x45)
        invariant
            0 <= start <= *i <= b@.len(),
            start == *old(i),
            number_end(b@, *i as nat) == goal,
            run@ == b@.subrange(start, *i as int),
            text@ == as_chars(b@.subrange(start, *i as int)),
        decreases b@.len() - *i,
    {
        run.push(b[*i]);
        text.push(b[*i] as char);
        *i = *i + 1;
        assert(run@ =~= b@.subrange(start, *i as int));
        assert(text@ =~= as_chars(b@.subrange(start, *i as int)));
    }
    assert(*i == goal);
    if number_is_valid(&run) {
        Ok(Json::Num(text))
    } else {
        failure("bad number")
    }
}

/// Reads a value.
fn parse_value(b: &[u8], i: &mut usize) -> (r: Result<Json, String>)
    requires
        *old(i) <= b@.len(),
    ensures
        match value_at(b@, *old(i) as nat) {
            Ok((v, end)) => r matches Ok(j) && j@ == v && *final(i) == end,
            Err(e) => r matches Err(t) && t@ == e,
        },
    decreases b@.len() - *old(i), 1nat,
{
    proof {
        lemma_after_blanks(b@, *i as nat);
    }
    skip_ws(b, i);
    if *i >= b.len() {
        return failure("unexpected end");
    }
    let c: u8 = b[*i];
    if c == 0x7B {
        parse_obj(b, i)
    } else if c == 0x5B {
        parse_arr(b, i)
    } else if c == 0x22 {
        match parse_str(b, i) {
            Ok(s) => Ok(Json::Str(s)),
            Err(e) => Err(e),
        }
    } else if c == 0x74 {
        move_on(b, i, 4);
        Ok(Json::Bool(true))
    } else if c == 0x66 {
        move_on(b, i, 5);
        Ok(Json::Bool(false))
    } else if c == 0x6E {
        move_on(b, i, 4);
        Ok(Json::Null)
    } else {
        parse_num(b, i)
    }
}

/// Reads an object, from its opening brace on.
fn parse_obj(b: &[u8], i: &mut usize) -> (r: Result<Json, String>)
    requires
        *old(i) < b@.len(),
    ensures
        match members_at(b@, (*old(i) + 1) as nat, seq![]) {
            Ok((v, end)) => r matches Ok(j) && j@ == v && *final(i) == end,
            Err(e) => r matches Err(t) && t@ == e,
        },
    decreases b@.len() - *old(i), 0nat,
{
    let mut m: Vec<(String, Json)> = Vec::new();
    let ghost start = *i;
    assert(*i < b.len());
    *i = *i + 1;
    let ghost goal = members_at(b@, *i as nat, seq![]);
    assert(entry_views(m@) =~= seq![]);
    loop
        invariant
            start < *i <= b@.len(),
            start == *old(i),
            goal == members_at(b@, (start + 1) as nat, seq![]),
            members_at(b@, *i as nat, entry_views(m@)) == goal,
        decreases b@.len() - *i,
    {
        let ghost at = *i as nat;
        proof {
            lemma_after_blanks(b@, at);
        }
        skip_ws(b, i);
        let ghost j = *i as nat;
        if *i < b.len() && b[*i] == 0x7D {
            *i = *i + 1;
            let r = Json::Obj(m);
            proof {
                lemma_view_obj(r, r->Obj_0);
            }
            return Ok(r);
        }
        proof {
            lemma_string_at(b@, j);
        }
        let key = match parse_str(b, i) {
            Ok(s) => s,
            Err(e) => {
                return Err(e);
            },
        };
        let ghost p = *i as nat;
        proof {
            lemma_after_blanks(b@, p);
        }
        skip_ws(b, i);
        if *i >= b.len() || b[*i] != 0x3A {
            return failure("expected :");
        }
        *i = *i + 1;
        proof {
            lemma_value_moves_on(b@, *i as nat);
        }
        let val = match parse_value(b, i) {
            Ok(v) => v,
            Err(e) => {
                return Err(e);
            },
        };
        let ghost q = *i as nat;
        proof {
            lemma_after_blanks(b@, q);
        }
        insert(&mut m, key, val);
        skip_ws(b, i);
        if *i < b.len() && b[*i] == 0x2C {
            *i = *i + 1;
        }
        assert(*i == after_comma(b@, q));
    }
}

/// Reads an array, from its opening bracket on.
fn parse_arr(b: &[u8], i: &mut usize) -> (r: Result<Json, String>)
    requires
        *old(i) < b@.len(),
    ensures
        match items_at(b@, (*old(i) + 1) as nat, seq![]) {
            Ok((v, end)) => r matches Ok(j) && j@ == v && *final(i) == end,
            Err(e) => r matches Err(t) && t@ == e,
        },
    decreases b@.len() - *old(i), 0nat,
{
    let mut a: Vec<Json> = Vec::new();
    let ghost start = *i;
    assert(*i < b.len());
    *i = *i + 1;
    let ghost goal = items_at(b@, *i as nat, seq![]);
    assert(all_views(a@) =~= seq![]);
    loop
        invariant
            start < *i <= b@.len(),
            start == *old(i),
            goal == items_at(b@, (start + 1) as nat, seq![]),
            items_at(b@, *i as nat, all_views(a@)) == goal,
        decreases b@.len() - *i,
    {
        let ghost at = *i as nat;
        proof {
            lemma_after_blanks(b@, at);
        }
        skip_ws(b, i);
        if *i < b.len() && b[*i] == 0x5D {
            *i = *i + 1;
            let r = Json::Arr(a);
            proof {
                lemma_view_arr(r, r->Arr_0);
            }
            return Ok(r);
        }
        proof {
            lemma_value_moves_on(b@, *i as nat);
            assert(value_at(b@, *i as nat) == value_at(b@, at));
        }
        let val = match parse_value(b, i) {
            Ok(v) => v,
            Err(e) => {
                return Err(e);
            },
        };
        let ghost q = *i as nat;
        proof {
            lemma_after_blanks(b@, q);
        }
        let ghost before = all_views(a@);
        let ghost v = val@;
        a.push(val);
        assert(all_views(a@) =~= before.push(v));
        skip_ws(b, i);
        if *i < b.len() && b[*i] == 0x2C {
            *i = *i + 1;
        }
        assert(*i == after_comma(b@, q));
    }
}

/// Reads the value at the start of a text. What follows it is ignored.
pub fn parse(s: &str) -> (r: Result<Json, String>)
    ensures
        match value_at(encode_utf8(s@), 0) {
            Ok((v, end)) => r matches Ok(j) && j@ == v,
            Err(e) => r matches Err(t) && t@ == e,
        },
{
    let b = s.as_bytes();
    let mut i: usize = 0;
    parse_value(b, &mut i)
}

} // verus!
