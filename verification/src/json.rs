//! The JSON value model and codec for the stdio wire format.
//!
//! Frames exchanged with the browser carry one JSON document each. The
//! library works on its own value type: objects keep their members in
//! order, strings are sequences of characters, and numbers are integers
//! (the protocol itself never carries a number; non-integer numbers are
//! rejected on decode). Strings accept every single-character escape of
//! JSON — `\" \\ \/ \b \f \n \r \t` — any unescaped character
//! from space upward, and `\uXXXX` escapes naming such a character
//! (surrogate pairs and other control characters are rejected). The
//! serializer produces the canonical compact text of a value; the
//! decoder accepts this grammar with whitespace between tokens and is
//! proved to return exactly `v` on any text whose compact form is the
//! canonical text of a well-formed `v`, pretty-printed texts included,
//! which makes encode/decode a round trip.

use vstd::prelude::*;

verus! {

broadcast use vstd::seq::group_seq_axioms, vstd::std_specs::vec::group_vec_axioms;

/// Mathematical model of a JSON value. Object members are kept as an
/// ordered sequence of key/value pairs.
pub enum JsonVal {
    Null,
    Bool(bool),
    Int(int),
    Str(Seq<char>),
    Arr(Seq<JsonVal>),
    Obj(Seq<(Seq<char>, JsonVal)>),
}

/// Characters the serializer can represent inside a string: everything
/// from space upward, plus the five escapable control characters.
pub open spec fn char_ok(c: char) -> bool {
    c == '\n' || c == '\r' || c == '\t' || c == '\u{8}' || c == '\u{c}' || (c as u32) >= 0x20
}

/// A well-formed string holds only representable characters.
pub open spec fn wf_str(s: Seq<char>) -> bool {
    forall|i: int| 0 <= i < s.len() ==> char_ok(#[trigger] s[i])
}

/// A well-formed value: integers fit in `i64` and every string in it is
/// well formed. Round-trip statements are made for well-formed values.
pub open spec fn wf(v: JsonVal) -> bool
    decreases v, 0int,
{
    match v {
        JsonVal::Null => true,
        JsonVal::Bool(_) => true,
        JsonVal::Int(i) => i64::MIN <= i <= i64::MAX,
        JsonVal::Str(s) => wf_str(s),
        JsonVal::Arr(a) => wf_list(a),
        JsonVal::Obj(m) => wf_member_list(m),
    }
}

/// All values of a list are well formed.
pub open spec fn wf_list(a: Seq<JsonVal>) -> bool
    decreases a, 0int,
{
    a.len() == 0 || (wf(a[0]) && wf_list(a.drop_first()))
}

/// All keys and values of a member list are well formed.
pub open spec fn wf_member_list(m: Seq<(Seq<char>, JsonVal)>) -> bool
    decreases m, 0int,
{
    m.len() == 0 || (wf_str(m[0].0) && wf(m[0].1) && wf_member_list(m.drop_first()))
}

/// A list is well formed exactly when each of its values is.
pub proof fn lemma_wf_list(a: Seq<JsonVal>)
    ensures
        wf_list(a) <==> (forall|i: int| 0 <= i < a.len() ==> wf(#[trigger] a[i])),
    decreases a.len(),
{
    if a.len() > 0 {
        lemma_wf_list(a.drop_first());
        assert(forall|i: int|
            1 <= i < a.len() ==> a.drop_first()[i - 1] == #[trigger] a[i]);
        if wf_list(a) {
            assert forall|i: int| 0 <= i < a.len() implies wf(#[trigger] a[i]) by {
                if i > 0 {
                    assert(wf(a.drop_first()[i - 1]));
                }
            }
        }
        if forall|i: int| 0 <= i < a.len() ==> wf(#[trigger] a[i]) {
            assert forall|i: int| 0 <= i < a.drop_first().len() implies wf(
                #[trigger] a.drop_first()[i],
            ) by {
                assert(a.drop_first()[i] == a[i + 1]);
            }
        }
    }
}

/// A member list is well formed exactly when each key and value is.
pub proof fn lemma_wf_member_list(m: Seq<(Seq<char>, JsonVal)>)
    ensures
        wf_member_list(m) <==> (forall|i: int|
            0 <= i < m.len() ==> wf_str((#[trigger] m[i]).0) && wf(m[i].1)),
    decreases m.len(),
{
    if m.len() > 0 {
        lemma_wf_member_list(m.drop_first());
        assert(forall|i: int|
            1 <= i < m.len() ==> m.drop_first()[i - 1] == #[trigger] m[i]);
        if wf_member_list(m) {
            assert forall|i: int| 0 <= i < m.len() implies wf_str((#[trigger] m[i]).0) && wf(
                m[i].1,
            ) by {
                if i > 0 {
                    assert(wf_str(m.drop_first()[i - 1].0) && wf(m.drop_first()[i - 1].1));
                }
            }
        }
        if forall|i: int| 0 <= i < m.len() ==> wf_str((#[trigger] m[i]).0) && wf(m[i].1) {
            assert forall|i: int| 0 <= i < m.drop_first().len() implies wf_str(
                (#[trigger] m.drop_first()[i]).0,
            ) && wf(m.drop_first()[i].1) by {
                assert(m.drop_first()[i] == m[i + 1]);
            }
        }
    }
}

/// Serialization of one character inside a string literal.
pub open spec fn esc_char(c: char) -> Seq<char> {
    if c == '"' {
        seq!['\\', '"']
    } else if c == '\\' {
        seq!['\\', '\\']
    } else if c == '\n' {
        seq!['\\', 'n']
    } else if c == '\r' {
        seq!['\\', 'r']
    } else if c == '\t' {
        seq!['\\', 't']
    } else if c == '\u{8}' {
        seq!['\\', 'b']
    } else if c == '\u{c}' {
        seq!['\\', 'f']
    } else {
        seq![c]
    }
}

/// Serialization of string contents (without the surrounding quotes).
pub open spec fn escape(s: Seq<char>) -> Seq<char>
    decreases s.len(),
{
    if s.len() == 0 {
        Seq::empty()
    } else {
        esc_char(s[0]) + escape(s.drop_first())
    }
}

/// The decimal digit character for `d` in `0 ..= 9`.
pub open spec fn digit_char(d: int) -> char {
    if d == 0 {
        '0'
    } else if d == 1 {
        '1'
    } else if d == 2 {
        '2'
    } else if d == 3 {
        '3'
    } else if d == 4 {
        '4'
    } else if d == 5 {
        '5'
    } else if d == 6 {
        '6'
    } else if d == 7 {
        '7'
    } else if d == 8 {
        '8'
    } else {
        '9'
    }
}

/// Whether `c` is a decimal digit.
pub open spec fn is_digit(c: char) -> bool {
    48 <= c as u32 <= 57
}

/// Numeric value of a digit character.
pub open spec fn digit_val(c: char) -> int {
    c as u32 - 48
}

/// Decimal text of a natural number, most significant digit first.
pub open spec fn ser_nat(n: nat) -> Seq<char>
    decreases n,
{
    if n < 10 {
        seq![digit_char(n as int)]
    } else {
        ser_nat(n / 10) + seq![digit_char((n % 10) as int)]
    }
}

/// Decimal text of an integer.
pub open spec fn ser_int(i: int) -> Seq<char> {
    if i < 0 {
        seq!['-'] + ser_nat((-i) as nat)
    } else {
        ser_nat(i as nat)
    }
}

/// Canonical compact serialization of a value.
pub open spec fn ser(v: JsonVal) -> Seq<char>
    decreases v, 0int,
{
    match v {
        JsonVal::Null => seq!['n', 'u', 'l', 'l'],
        JsonVal::Bool(b) => if b {
            seq!['t', 'r', 'u', 'e']
        } else {
            seq!['f', 'a', 'l', 's', 'e']
        },
        JsonVal::Int(i) => ser_int(i),
        JsonVal::Str(s) => seq!['"'] + escape(s) + seq!['"'],
        JsonVal::Arr(a) => seq!['['] + ser_elems(a) + seq![']'],
        JsonVal::Obj(m) => seq!['{'] + ser_members(m) + seq!['}'],
    }
}

/// Comma-separated serializations of array elements.
pub open spec fn ser_elems(a: Seq<JsonVal>) -> Seq<char>
    decreases a, 0int,
{
    if a.len() == 0 {
        Seq::empty()
    } else if a.len() == 1 {
        ser(a[0])
    } else {
        ser(a[0]) + seq![','] + ser_elems(a.drop_first())
    }
}

/// Serialization of one object member.
pub open spec fn ser_member(k: Seq<char>, v: JsonVal) -> Seq<char>
    decreases v, 1int,
{
    seq!['"'] + escape(k) + seq!['"', ':'] + ser(v)
}

/// Comma-separated serializations of object members.
pub open spec fn ser_members(m: Seq<(Seq<char>, JsonVal)>) -> Seq<char>
    decreases m, 0int,
{
    if m.len() == 0 {
        Seq::empty()
    } else if m.len() == 1 {
        ser_member(m[0].0, m[0].1)
    } else {
        ser_member(m[0].0, m[0].1) + seq![','] + ser_members(m.drop_first())
    }
}

/// Executable JSON value.
#[derive(Debug, PartialEq)]
pub enum Json {
    Null,
    Bool(bool),
    Int(i64),
    Str(String),
    Arr(Vec<Json>),
    Obj(Vec<(String, Json)>),
}

/// The model of an executable value.
pub open spec fn json_view(j: Json) -> JsonVal
    decreases j,
{
    match j {
        Json::Null => JsonVal::Null,
        Json::Bool(b) => JsonVal::Bool(b),
        Json::Int(i) => JsonVal::Int(i as int),
        Json::Str(s) => JsonVal::Str(s@),
        Json::Arr(v) => JsonVal::Arr(
            Seq::new(
                v@.len(),
                |i: int|
                    if 0 <= i < v@.len() {
                        json_view(v@[i])
                    } else {
                        JsonVal::Null
                    },
            ),
        ),
        Json::Obj(v) => JsonVal::Obj(
            Seq::new(
                v@.len(),
                |i: int|
                    if 0 <= i < v@.len() {
                        (v@[i].0@, json_view(v@[i].1))
                    } else {
                        (Seq::empty(), JsonVal::Null)
                    },
            ),
        ),
    }
}

impl View for Json {
    type V = JsonVal;

    open spec fn view(&self) -> JsonVal {
        json_view(*self)
    }
}

/// Escaping distributes over concatenation.
pub proof fn lemma_escape_concat(a: Seq<char>, b: Seq<char>)
    ensures
        escape(a + b) == escape(a) + escape(b),
    decreases a.len(),
{
    if a.len() == 0 {
        assert(a + b =~= b);
        assert(escape(a) + escape(b) =~= escape(b));
    } else {
        assert((a + b).drop_first() =~= a.drop_first() + b);
        lemma_escape_concat(a.drop_first(), b);
        assert(escape(a + b) =~= escape(a) + escape(b));
    }
}

/// Escaping one more character appends its escape sequence.
pub proof fn lemma_escape_snoc(s: Seq<char>, c: char)
    ensures
        escape(s.push(c)) == escape(s) + esc_char(c),
{
    assert(s.push(c) =~= s + seq![c]);
    lemma_escape_concat(s, seq![c]);
    assert(seq![c].drop_first() =~= Seq::<char>::empty());
    assert(escape(seq![c].drop_first()) == Seq::<char>::empty());
    assert(escape(seq![c]) =~= esc_char(c));
}

/// Appending an element to a non-empty list appends a comma and its text.
pub proof fn lemma_ser_elems_push(a: Seq<JsonVal>, x: JsonVal)
    ensures
        a.len() == 0 ==> ser_elems(a.push(x)) == ser(x),
        a.len() > 0 ==> ser_elems(a.push(x)) == ser_elems(a) + seq![','] + ser(x),
    decreases a.len(),
{
    let p = a.push(x);
    if a.len() == 0 {
        assert(p.len() == 1);
        assert(p[0] == x);
    } else if a.len() == 1 {
        assert(p.len() == 2);
        assert(p[0] == a[0]);
        assert(p.drop_first() =~= seq![x]);
        assert(ser_elems(seq![x]) == ser(x));
        assert(ser_elems(p) =~= ser_elems(a) + seq![','] + ser(x));
    } else {
        assert(p.drop_first() =~= a.drop_first().push(x));
        lemma_ser_elems_push(a.drop_first(), x);
        assert(ser_elems(p) == ser(p[0]) + seq![','] + ser_elems(p.drop_first()));
        assert(p[0] == a[0]);
        assert(ser_elems(p) =~= ser_elems(a) + seq![','] + ser(x));
    }
}

/// Appending a member to a non-empty member list appends a comma and its
/// text.
pub proof fn lemma_ser_members_push(m: Seq<(Seq<char>, JsonVal)>, k: Seq<char>, x: JsonVal)
    ensures
        m.len() == 0 ==> ser_members(m.push((k, x))) == ser_member(k, x),
        m.len() > 0 ==> ser_members(m.push((k, x))) == ser_members(m) + seq![','] + ser_member(
            k,
            x,
        ),
    decreases m.len(),
{
    let p = m.push((k, x));
    if m.len() == 0 {
        assert(p.len() == 1);
        assert(p[0] == (k, x));
    } else if m.len() == 1 {
        assert(p.len() == 2);
        assert(p[0] == m[0]);
        assert(p.drop_first() =~= seq![(k, x)]);
        assert(ser_members(seq![(k, x)]) == ser_member(k, x));
        assert(ser_members(p) =~= ser_members(m) + seq![','] + ser_member(k, x));
    } else {
        assert(p.drop_first() =~= m.drop_first().push((k, x)));
        lemma_ser_members_push(m.drop_first(), k, x);
        assert(p[0] == m[0]);
        assert(ser_members(p) =~= ser_members(m) + seq![','] + ser_member(k, x));
    }
}

/// The digit character for a small number.
fn digit_char_exec(d: u64) -> (c: char)
    requires
        d < 10,
    ensures
        c == digit_char(d as int),
{
    match d {
        0 => '0',
        1 => '1',
        2 => '2',
        3 => '3',
        4 => '4',
        5 => '5',
        6 => '6',
        7 => '7',
        8 => '8',
        _ => '9',
    }
}

/// Append the decimal digits of `n` to `out`.
fn write_nat(n: u64, out: &mut Vec<char>)
    ensures
        final(out)@ == old(out)@ + ser_nat(n as nat),
    decreases n,
{
    if n < 10 {
        out.push(digit_char_exec(n));
        assert(out@ =~= old(out)@ + ser_nat(n as nat));
    } else {
        write_nat(n / 10, out);
        out.push(digit_char_exec(n % 10));
        assert(out@ =~= old(out)@ + ser_nat(n as nat));
    }
}

/// Append the decimal text of `i` to `out`.
fn write_int(i: i64, out: &mut Vec<char>)
    ensures
        final(out)@ == old(out)@ + ser_int(i as int),
{
    if i < 0 {
        out.push('-');
        let m: u64 = ((-(i + 1)) as u64) + 1;
        assert(m as int == -(i as int));
        write_nat(m, out);
        assert(out@ =~= old(out)@ + ser_int(i as int));
    } else {
        write_nat(i as u64, out);
    }
}

/// Append the escaped contents of `s` (no surrounding quotes) to `out`.
fn write_str_contents(s: &str, out: &mut Vec<char>)
    ensures
        final(out)@ == old(out)@ + escape(s@),
{
    let n = s.unicode_len();
    let ghost base = out@;
    let mut i: usize = 0;
    while i < n
        invariant
            n == s@.len(),
            i <= n,
            out@ == base + escape(s@.take(i as int)),
        decreases n - i,
    {
        let c = s.get_char(i);
        proof {
            assert(s@.take(i as int).push(c) =~= s@.take(i + 1 as int));
            lemma_escape_snoc(s@.take(i as int), c);
        }
        match c {
            '"' => {
                out.push('\\');
                out.push('"');
            },
            '\\' => {
                out.push('\\');
                out.push('\\');
            },
            '\n' => {
                out.push('\\');
                out.push('n');
            },
            '\r' => {
                out.push('\\');
                out.push('r');
            },
            '\t' => {
                out.push('\\');
                out.push('t');
            },
            '\u{8}' => {
                out.push('\\');
                out.push('b');
            },
            '\u{c}' => {
                out.push('\\');
                out.push('f');
            },
            _ => {
                out.push(c);
            },
        }
        assert(out@ =~= base + escape(s@.take(i + 1 as int)));
        i = i + 1;
    }
    proof {
        assert(s@.take(n as int) =~= s@);
    }
}

/// Append the canonical serialization of `j` to `out`.
#[verifier::loop_isolation(false)]
#[verifier::rlimit(50)]
pub fn write_json(j: &Json, out: &mut Vec<char>)
    ensures
        final(out)@ == old(out)@ + ser(j@),
    decreases *j,
{
    let ghost base = out@;
    match j {
        Json::Null => {
            out.push('n');
            out.push('u');
            out.push('l');
            out.push('l');
            assert(out@ =~= base + ser(j@));
        },
        Json::Bool(b) => {
            if *b {
                out.push('t');
                out.push('r');
                out.push('u');
                out.push('e');
            } else {
                out.push('f');
                out.push('a');
                out.push('l');
                out.push('s');
                out.push('e');
            }
            assert(out@ =~= base + ser(j@));
        },
        Json::Int(i) => {
            write_int(*i, out);
        },
        Json::Str(s) => {
            out.push('"');
            write_str_contents(s.as_str(), out);
            out.push('"');
            assert(out@ =~= base + ser(j@));
        },
        Json::Arr(v) => {
            out.push('[');
            let ghost a = j@->Arr_0;
            let n = v.len();
            let mut k: usize = 0;
            while k < n
                invariant
                    n == v@.len(),
                    k <= n,
                    a == json_view(*j)->Arr_0,
                    a.len() == n,
                    forall|q: int| 0 <= q < n ==> a[q] == json_view(v@[q]),
                    out@ == base + seq!['['] + ser_elems(a.take(k as int)),
                decreases n - k,
            {
                if k > 0 {
                    out.push(',');
                }
                write_json(&v[k], out);
                proof {
                    assert(a.take(k as int).push(a[k as int]) =~= a.take(k + 1 as int));
                    lemma_ser_elems_push(a.take(k as int), a[k as int]);
                    assert(out@ =~= base + seq!['['] + ser_elems(a.take(k + 1 as int)));
                }
                k = k + 1;
            }
            out.push(']');
            proof {
                assert(a.take(n as int) =~= a);
                assert(out@ =~= base + ser(j@));
            }
        },
        Json::Obj(v) => {
            out.push('{');
            let ghost m = j@->Obj_0;
            let n = v.len();
            let mut k: usize = 0;
            while k < n
                invariant
                    n == v@.len(),
                    k <= n,
                    m == json_view(*j)->Obj_0,
                    m.len() == n,
                    forall|q: int| 0 <= q < n ==> m[q] == (v@[q].0@, json_view(v@[q].1)),
                    out@ == base + seq!['{'] + ser_members(m.take(k as int)),
                decreases n - k,
            {
                if k > 0 {
                    out.push(',');
                }
                let pair = &v[k];
                out.push('"');
                write_str_contents(pair.0.as_str(), out);
                out.push('"');
                out.push(':');
                write_json(&pair.1, out);
                proof {
                    assert(m.take(k as int).push(m[k as int]) =~= m.take(k + 1 as int));
                    lemma_ser_members_push(m.take(k as int), m[k as int].0, m[k as int].1);
                    assert(out@ =~= base + seq!['{'] + ser_members(m.take(k + 1 as int)));
                }
                k = k + 1;
            }
            out.push('}');
            proof {
                assert(m.take(n as int) =~= m);
                assert(out@ =~= base + ser(j@));
            }
        },
    }
}

/// The canonical serialization of `j`, as a character vector.
pub fn to_json_chars(j: &Json) -> (out: Vec<char>)
    ensures
        out@ == ser(j@),
{
    let mut out: Vec<char> = Vec::new();
    write_json(j, &mut out);
    out
}

/// Relies on String's FromIterator impl: collecting characters yields the
/// string of exactly those characters in order.
#[verifier::external_body]
pub fn chars_to_string(v: &Vec<char>) -> (r: String)
    ensures
        r@ == v@,
{
    v.iter().collect()
}

/// JSON insignificant whitespace.
pub open spec fn is_ws(c: char) -> bool {
    c == ' ' || c == '\t' || c == '\n' || c == '\r'
}

/// What may follow a serialized value so that the value's end is
/// unambiguous: anything but another digit.
pub open spec fn delim_ok(rest: Seq<char>) -> bool {
    rest.len() == 0 || !is_digit(rest[0])
}

/// Models of a sequence of executable values.
pub open spec fn views_of(s: Seq<Json>) -> Seq<JsonVal> {
    Seq::new(
        s.len(),
        |i: int|
            if 0 <= i < s.len() {
                json_view(s[i])
            } else {
                JsonVal::Null
            },
    )
}

/// Models of a sequence of executable object members.
pub open spec fn member_views_of(s: Seq<(String, Json)>) -> Seq<(Seq<char>, JsonVal)> {
    Seq::new(
        s.len(),
        |i: int|
            if 0 <= i < s.len() {
                (s[i].0@, json_view(s[i].1))
            } else {
                (Seq::empty(), JsonVal::Null)
            },
    )
}

/// Numeric value of a digit string, most significant digit first.
pub open spec fn val_digits(ds: Seq<char>) -> int
    decreases ds.len(),
{
    if ds.len() == 0 {
        0
    } else {
        val_digits(ds.drop_last()) * 10 + digit_val(ds.last())
    }
}

/// All characters of a sequence are digits.
pub open spec fn all_digits(ds: Seq<char>) -> bool {
    forall|i: int| 0 <= i < ds.len() ==> is_digit(#[trigger] ds[i])
}

proof fn lemma_val_digits_nonneg(ds: Seq<char>)
    requires
        all_digits(ds),
    ensures
        0 <= val_digits(ds),
    decreases ds.len(),
{
    if ds.len() > 0 {
        assert(all_digits(ds.drop_last()));
        lemma_val_digits_nonneg(ds.drop_last());
        assert(is_digit(ds.last()));
    }
}

proof fn lemma_val_digits_snoc(ds: Seq<char>, c: char)
    ensures
        val_digits(ds.push(c)) == val_digits(ds) * 10 + digit_val(c),
{
    assert(ds.push(c).drop_last() =~= ds);
    assert(ds.push(c).last() == c);
}

proof fn lemma_val_digits_prefix(ds: Seq<char>, k: int)
    requires
        all_digits(ds),
        0 <= k <= ds.len(),
    ensures
        val_digits(ds.take(k)) <= val_digits(ds),
    decreases ds.len(),
{
    if k == ds.len() {
        assert(ds.take(k) =~= ds);
    } else {
        let d = ds.drop_last();
        assert(all_digits(d));
        assert(d.take(k) =~= ds.take(k));
        lemma_val_digits_prefix(d, k);
        lemma_val_digits_nonneg(d);
        assert(is_digit(ds.last()));
        assert(val_digits(ds) == val_digits(d) * 10 + digit_val(ds.last()));
        assert(val_digits(d) * 10 + digit_val(ds.last()) >= val_digits(d));
    }
}

proof fn lemma_digit_char_val(d: int)
    requires
        0 <= d <= 9,
    ensures
        is_digit(digit_char(d)),
        digit_val(digit_char(d)) == d,
        d == 0 <==> digit_char(d) == '0',
{
}

/// Shape facts about decimal texts: nonempty, all digits, no leading zero
/// except for zero itself, and the value they denote.
proof fn lemma_ser_nat_shape(m: nat)
    ensures
        ser_nat(m).len() >= 1,
        all_digits(ser_nat(m)),
        m >= 10 <==> ser_nat(m).len() >= 2,
        ser_nat(m)[0] == '0' ==> m == 0,
        val_digits(ser_nat(m)) == m,
    decreases m,
{
    if m < 10 {
        lemma_digit_char_val(m as int);
        assert(ser_nat(m) =~= seq![digit_char(m as int)]);
        assert(ser_nat(m).drop_last() =~= Seq::<char>::empty());
        assert(val_digits(Seq::<char>::empty()) == 0);
        assert(ser_nat(m).last() == digit_char(m as int));
        assert(val_digits(ser_nat(m)) == val_digits(ser_nat(m).drop_last()) * 10 + digit_val(
            ser_nat(m).last(),
        ));
        assert(val_digits(ser_nat(m)) == m);
    } else {
        lemma_ser_nat_shape(m / 10);
        lemma_digit_char_val((m % 10) as int);
        let pre = ser_nat(m / 10);
        let whole = ser_nat(m);
        assert(whole == pre + seq![digit_char((m % 10) as int)]);
        assert(whole.drop_last() =~= pre);
        assert(whole.last() == digit_char((m % 10) as int));
        assert(val_digits(whole) == val_digits(pre) * 10 + (m % 10));
        assert(val_digits(whole) == (m / 10) * 10 + (m % 10));
        assert((m / 10) * 10 + (m % 10) == m) by (nonlinear_arith);
        assert forall|i: int| 0 <= i < whole.len() implies is_digit(#[trigger] whole[i]) by {
            if i < pre.len() {
                assert(whole[i] == pre[i]);
            }
        }
        assert(m / 10 >= 1);
        assert(whole[0] == pre[0]);
    }
}

/// Shape facts about integer texts.
proof fn lemma_ser_int_shape(iv: int)
    ensures
        ser_int(iv).len() >= 1,
        iv < 0 ==> ser_int(iv)[0] == '-' && ser_int(iv).drop_first() == ser_nat((-iv) as nat),
        iv >= 0 ==> ser_int(iv) == ser_nat(iv as nat) && is_digit(ser_int(iv)[0]),
{
    if iv < 0 {
        lemma_ser_nat_shape((-iv) as nat);
        assert(ser_int(iv).drop_first() =~= ser_nat((-iv) as nat));
    } else {
        lemma_ser_nat_shape(iv as nat);
    }
}

/// The input at `pos` is the canonical text of integer `iv` followed by
/// `rest`, and no digit follows, so the digit run is unambiguous.
pub open spec fn int_hyp(s: Seq<char>, pos: int, iv: int, rest: Seq<char>) -> bool {
    &&& i64::MIN <= iv <= i64::MAX
    &&& 0 <= pos <= s.len()
    &&& s.skip(pos) == ser_int(iv) + rest
    &&& delim_ok(rest)
}

/// The parse result is exactly integer `iv` ending at `q`.
pub open spec fn int_ok(r: Option<(i64, usize)>, iv: int, q: int) -> bool {
    match r {
        Option::Some((i, m)) => i as int == iv && m == q,
        Option::None => false,
    }
}

/// Magnitude of an integer.
pub open spec fn abs_n(iv: int) -> nat {
    if iv < 0 {
        (-iv) as nat
    } else {
        iv as nat
    }
}

/// Start of the digit run of a serialized integer.
pub open spec fn int_dstart(pos: int, iv: int) -> int {
    if iv < 0 {
        pos + 1
    } else {
        pos
    }
}

/// Facts about where the digit run of a canonical integer text lies in
/// the input and what it denotes.
proof fn lemma_int_run(s: Seq<char>, pos: int, iv: int, rest: Seq<char>)
    requires
        int_hyp(s, pos, iv, rest),
    ensures
        pos < s.len(),
        iv < 0 ==> s[pos] == '-',
        iv >= 0 ==> is_digit(s[pos]),
        int_dstart(pos, iv) + ser_nat(abs_n(iv)).len() <= s.len(),
        s.subrange(int_dstart(pos, iv), int_dstart(pos, iv) + ser_nat(abs_n(iv)).len())
            == ser_nat(abs_n(iv)),
        forall|q: int|
            int_dstart(pos, iv) <= q < int_dstart(pos, iv) + ser_nat(abs_n(iv)).len()
                ==> is_digit(#[trigger] s[q]),
        int_dstart(pos, iv) + ser_nat(abs_n(iv)).len() < s.len() ==> !is_digit(
            s[int_dstart(pos, iv) + ser_nat(abs_n(iv)).len()],
        ),
        val_digits(ser_nat(abs_n(iv))) == abs_n(iv),
        ser_nat(abs_n(iv)).len() >= 1,
        ser_nat(abs_n(iv)).len() >= 2 ==> s[int_dstart(pos, iv)] != '0',
        pos + ser_int(iv).len() == int_dstart(pos, iv) + ser_nat(abs_n(iv)).len(),
{
    let m = abs_n(iv);
    let d = int_dstart(pos, iv);
    let l = ser_nat(m).len() as int;
    lemma_ser_int_shape(iv);
    lemma_ser_nat_shape(m);
    assert(s.skip(pos).len() == s.len() - pos);
    assert(forall|k: int|
        0 <= k < s.len() - pos ==> s.skip(pos)[k] == #[trigger] s[pos + k]);
    assert(ser_int(iv).len() == (if iv < 0 { 1int } else { 0int }) + l);
    assert forall|q: int| d <= q < d + l implies is_digit(#[trigger] s[q]) by {
        let k = q - pos;
        assert(s[q] == (ser_int(iv) + rest)[k]);
        if iv < 0 {
            assert((ser_int(iv) + rest)[k] == ser_int(iv)[k]);
            assert(ser_int(iv)[k] == ser_int(iv).drop_first()[k - 1]);
            assert(ser_int(iv).drop_first() == ser_nat(m));
        } else {
            assert((ser_int(iv) + rest)[k] == ser_int(iv)[k]);
        }
    }
    assert forall|k: int| 0 <= k < l implies s.subrange(d, d + l)[k] == ser_nat(m)[k] by {
        assert(s[d + k] == s.skip(pos)[d + k - pos]);
        assert((ser_int(iv) + rest)[d + k - pos] == ser_int(iv)[d + k - pos]);
        if iv < 0 {
            assert(ser_int(iv)[1 + k] == ser_int(iv).drop_first()[k]);
        }
    }
    assert(s.subrange(d, d + l) =~= ser_nat(m));
    if d + l < s.len() {
        assert(rest.len() > 0);
        assert(s[d + l] == (ser_int(iv) + rest)[d + l - pos]);
        assert(s[d + l] == rest[0]);
    }
    if l >= 2 {
        assert(m >= 10);
        assert(ser_nat(m)[0] != '0');
        assert(s[d] == ser_nat(m)[0]);
    }
    if iv < 0 {
        assert(s[pos] == (ser_int(iv) + rest)[0]);
        assert(ser_int(iv)[0] == '-');
    } else {
        assert(s[pos] == (ser_int(iv) + rest)[0]);
    }
}

/// The first character of a serialized value classifies its constructor.
proof fn lemma_ser_shape(v: JsonVal)
    ensures
        ser(v).len() >= 1,
        v is Null ==> ser(v) == seq!['n', 'u', 'l', 'l'],
        v is Bool ==> ser(v)[0] == 't' || ser(v)[0] == 'f',
        v is Int ==> ser(v)[0] == '-' || is_digit(ser(v)[0]),
        v is Str ==> ser(v)[0] == '"',
        v is Arr ==> ser(v)[0] == '[',
        v is Obj ==> ser(v)[0] == '{',
{
    match v {
        JsonVal::Int(i) => {
            lemma_ser_int_shape(i);
        },
        _ => {},
    }
}

/// Advance past insignificant whitespace.
fn skip_ws(s: &str, n: usize, pos: usize) -> (r: usize)
    requires
        n == s@.len(),
        pos <= n,
    ensures
        pos <= r <= n,
        forall|q: int| pos <= q < r ==> is_ws(#[trigger] s@[q]),
        r < n ==> !is_ws(s@[r as int]),
{
    let mut cur = pos;
    while cur < n
        invariant
            n == s@.len(),
            pos <= cur <= n,
            forall|q: int| pos <= q < cur ==> is_ws(#[trigger] s@[q]),
        decreases n - cur,
    {
        let c = s.get_char(cur);
        if c == ' ' || c == '\t' || c == '\n' || c == '\r' {
            cur = cur + 1;
        } else {
            return cur;
        }
    }
    cur
}

/// Whether `c` is a decimal digit.
fn is_digit_exec(c: char) -> (r: bool)
    ensures
        r == is_digit(c),
{
    let u = c as u32;
    48 <= u && u <= 57
}

/// Parse a JSON integer starting exactly at `pos`. Rejects a leading zero
/// in front of further digits, a magnitude outside `i64`, and a missing
/// digit run; on the canonical text of any `i64` followed by a non-digit
/// it returns exactly that integer.
#[verifier::rlimit(60)]
fn parse_int_at(s: &str, n: usize, pos: usize) -> (r: Option<(i64, usize)>)
    requires
        n == s@.len(),
        pos <= n,
    ensures
        match r {
            Option::Some((_, q)) => pos < q <= n,
            Option::None => true,
        },
        forall|iv: int, rest: Seq<char>| #[trigger]
            int_hyp(s@, pos as int, iv, rest) ==> int_ok(r, iv, pos + ser_int(iv).len()),
{
    if pos >= n {
        proof {
            assert forall|iv: int, rest: Seq<char>| #[trigger]
                int_hyp(s@, pos as int, iv, rest) implies false by {
                lemma_int_run(s@, pos as int, iv, rest);
            }
        }
        return None;
    }
    let c0 = s.get_char(pos);
    let neg = c0 == '-';
    let dstart = if neg {
        pos + 1
    } else {
        pos
    };
    let mut cur = dstart;
    let mut mag: u64 = 0;
    proof {
        assert(s@.subrange(dstart as int, dstart as int) =~= Seq::<char>::empty());
    }
    loop
        invariant
            n == s@.len(),
            pos < n,
            neg == (s@[pos as int] == '-'),
            dstart == pos + (if neg { 1int } else { 0int }),
            dstart <= cur <= n,
            forall|q: int| dstart <= q < cur ==> is_digit(#[trigger] s@[q]),
            mag == val_digits(s@.subrange(dstart as int, cur as int)),
        ensures
            n == s@.len(),
            pos < n,
            neg == (s@[pos as int] == '-'),
            dstart == pos + (if neg { 1int } else { 0int }),
            dstart <= cur <= n,
            forall|q: int| dstart <= q < cur ==> is_digit(#[trigger] s@[q]),
            mag == val_digits(s@.subrange(dstart as int, cur as int)),
            cur < n ==> !is_digit(s@[cur as int]),
        decreases n - cur,
    {
        if cur >= n {
            break;
        }
        let c = s.get_char(cur);
        if !is_digit_exec(c) {
            break;
        }
        let d: u64 = ((c as u32) - 48) as u64;
        proof {
            lemma_val_digits_snoc(s@.subrange(dstart as int, cur as int), c);
            assert(s@.subrange(dstart as int, cur as int).push(c) =~= s@.subrange(
                dstart as int,
                cur + 1 as int,
            ));
        }
        if mag > (u64::MAX - d) / 10 {
            // A value this long cannot be the canonical text of an i64.
            proof {
                assert(mag * 10 + d > u64::MAX) by (nonlinear_arith)
                    requires
                        mag > (u64::MAX - d) / 10,
                        d <= 9,
                ;
                assert forall|iv: int, rest: Seq<char>| #[trigger]
                    int_hyp(s@, pos as int, iv, rest) implies false by {
                    lemma_int_run(s@, pos as int, iv, rest);
                    let m = abs_n(iv);
                    let ds = ser_nat(m);
                    let l = ds.len() as int;
                    assert(int_dstart(pos as int, iv) == dstart);
                    // The scanned digits are a strict prefix of the canonical run.
                    assert(cur + 1 - dstart <= l);
                    assert(s@.subrange(dstart as int, cur + 1 as int) =~= ds.take(
                        cur + 1 - dstart,
                    ));
                    lemma_val_digits_prefix(ds, cur + 1 - dstart);
                    assert(val_digits(ds.take(cur + 1 - dstart)) <= m as int);
                    assert(mag * 10 + d <= m as int);
                }
            }
            return None;
        }
        proof {
            assert(mag * 10 + d <= u64::MAX) by (nonlinear_arith)
                requires
                    mag <= (u64::MAX - d) / 10,
                    d <= 9,
            ;
        }
        mag = mag * 10 + d;
        cur = cur + 1;
    }
    if cur == dstart {
        proof {
            assert forall|iv: int, rest: Seq<char>| #[trigger]
                int_hyp(s@, pos as int, iv, rest) implies false by {
                lemma_int_run(s@, pos as int, iv, rest);
                assert(int_dstart(pos as int, iv) == dstart);
            }
        }
        return None;
    }
    if cur > dstart + 1 && s.get_char(dstart) == '0' {
        proof {
            assert forall|iv: int, rest: Seq<char>| #[trigger]
                int_hyp(s@, pos as int, iv, rest) implies false by {
                lemma_int_run(s@, pos as int, iv, rest);
                let l = ser_nat(abs_n(iv)).len() as int;
                assert(int_dstart(pos as int, iv) == dstart);
                // The canonical run is the whole scanned run.
                assert(cur - dstart <= l);
                assert(l >= 2);
            }
        }
        return None;
    }
    proof {
        // Under any hypothesis the scanned run is exactly the canonical run.
        assert forall|iv: int, rest: Seq<char>| #[trigger]
            int_hyp(s@, pos as int, iv, rest) implies (iv < 0 <==> neg) && mag == abs_n(iv)
            && cur == pos + ser_int(iv).len() by {
            lemma_int_run(s@, pos as int, iv, rest);
            let m = abs_n(iv);
            let ds = ser_nat(m);
            let l = ds.len() as int;
            assert(int_dstart(pos as int, iv) == dstart);
            assert(cur - dstart <= l);
            assert(l <= cur - dstart);
            assert(s@.subrange(dstart as int, cur as int) =~= ds);
        }
    }
    if neg {
        if mag > 9223372036854775808u64 {
            proof {
                assert forall|iv: int, rest: Seq<char>| #[trigger]
                    int_hyp(s@, pos as int, iv, rest) implies false by {}
            }
            return None;
        }
        let i: i64 = if mag == 9223372036854775808u64 {
            i64::MIN
        } else {
            -(mag as i64)
        };
        Some((i, cur))
    } else {
        if mag > 9223372036854775807u64 {
            proof {
                assert forall|iv: int, rest: Seq<char>| #[trigger]
                    int_hyp(s@, pos as int, iv, rest) implies false by {}
            }
            return None;
        }
        Some((mag as i64, cur))
    }
}

/// The input at `pos1` (just after an opening quote) is the escaped text
/// of `t`, a closing quote, then `rest`.
pub open spec fn str_hyp(s: Seq<char>, pos1: int, t: Seq<char>, rest: Seq<char>) -> bool {
    &&& wf_str(t)
    &&& 0 <= pos1 <= s.len()
    &&& s.skip(pos1) == escape(t) + seq!['"'] + rest
}

/// The parse result is exactly the string `t`, ending at `q`.
pub open spec fn str_ok(r: Option<(Vec<char>, usize)>, t: Seq<char>, q: int) -> bool {
    match r {
        Option::Some((cs, m)) => cs@ == t && m == q,
        Option::None => false,
    }
}

/// Where a string scan stands after building `k` characters of `t`: what
/// the next input characters must be.
proof fn lemma_str_state(s: Seq<char>, pos1: int, t: Seq<char>, rest: Seq<char>, k: int, cur: int)
    requires
        str_hyp(s, pos1, t, rest),
        0 <= k <= t.len(),
        cur == pos1 + escape(t.take(k)).len(),
    ensures
        pos1 <= cur < s.len(),
        escape(t) == escape(t.take(k)) + escape(t.skip(k)),
        k == t.len() ==> s[cur] == '"' && cur == pos1 + escape(t).len(),
        k < t.len() ==> s[cur] == esc_char(t[k])[0],
        k < t.len() ==> esc_char(t[k]).len() == 1 || esc_char(t[k]).len() == 2,
        k < t.len() && esc_char(t[k]).len() == 2 ==> cur + 1 < s.len() && s[cur + 1] == esc_char(
            t[k],
        )[1] && esc_char(t[k])[0] == '\\',
        k < t.len() && esc_char(t[k]).len() == 1 ==> esc_char(t[k])[0] == t[k] && t[k] != '"'
            && t[k] != '\\' && (t[k] as u32) >= 0x20,
        k < t.len() ==> escape(t.take(k + 1)) == escape(t.take(k)) + esc_char(t[k]),
{
    let a = escape(t.take(k));
    assert(t.take(k) + t.skip(k) =~= t);
    lemma_escape_concat(t.take(k), t.skip(k));
    let b = escape(t.skip(k));
    assert(escape(t) == a + b);
    assert(s.skip(pos1).len() == s.len() - pos1);
    assert(forall|j: int| 0 <= j < s.len() - pos1 ==> s.skip(pos1)[j] == #[trigger] s[pos1 + j]);
    assert(s.len() - pos1 == a.len() + b.len() + 1 + rest.len());
    if k == t.len() {
        assert(t.skip(k) =~= Seq::<char>::empty());
        assert(escape(Seq::<char>::empty()) == Seq::<char>::empty());
        assert(b.len() == 0);
        assert(s[pos1 + a.len()] == (escape(t) + seq!['"'] + rest)[a.len() as int]);
        assert((escape(t) + seq!['"'] + rest)[a.len() as int] == '"');
    } else {
        let e = esc_char(t[k]);
        assert(t.skip(k)[0] == t[k]);
        assert(t.skip(k).drop_first() =~= t.skip(k + 1));
        assert(b == e + escape(t.skip(k + 1)));
        assert(b.len() >= e.len());
        assert(e.len() == 1 || e.len() == 2);
        assert(s[pos1 + a.len()] == (escape(t) + seq!['"'] + rest)[a.len() as int]);
        assert((escape(t) + seq!['"'] + rest)[a.len() as int] == b[0]);
        assert(b[0] == e[0]);
        if e.len() == 2 {
            assert(s[pos1 + a.len() + 1] == (escape(t) + seq!['"'] + rest)[a.len() + 1int]);
            assert((escape(t) + seq!['"'] + rest)[a.len() + 1int] == b[1]);
            assert(b[1] == e[1]);
        } else {
            assert(char_ok(t[k]));
        }
        assert(t.take(k).push(t[k]) =~= t.take(k + 1));
        lemma_escape_snoc(t.take(k), t[k]);
    }
}

/// The input at `pos` is the canonical text of value `v` followed by
/// `rest`, and `rest` cannot extend a numeric literal.
pub open spec fn value_hyp(s: Seq<char>, pos: int, v: JsonVal, rest: Seq<char>) -> bool {
    &&& wf(v)
    &&& 0 <= pos <= s.len()
    &&& s.skip(pos) == ser(v) + rest
    &&& delim_ok(rest)
}

/// The parse result is exactly value `v`, ending at `q`.
pub open spec fn json_ok(r: Option<(Json, usize)>, v: JsonVal, q: int) -> bool {
    match r {
        Option::Some((j, m)) => j@ == v && m == q,
        Option::None => false,
    }
}

/// The input at `pos1` (just after `[`) is a serialized element list, a
/// closing bracket, then `rest`.
pub open spec fn arr_hyp(s: Seq<char>, pos1: int, a: Seq<JsonVal>, rest: Seq<char>) -> bool {
    &&& wf(JsonVal::Arr(a))
    &&& 0 <= pos1 <= s.len()
    &&& s.skip(pos1) == ser_elems(a) + seq![']'] + rest
}

/// The parse result is exactly the element list `a`, ending at `q`.
pub open spec fn arr_ok(r: Option<(Vec<Json>, usize)>, a: Seq<JsonVal>, q: int) -> bool {
    match r {
        Option::Some((vec, m)) => views_of(vec@) == a && m == q,
        Option::None => false,
    }
}

/// The input at `pos1` (just after `{`) is a serialized member list, a
/// closing brace, then `rest`.
pub open spec fn obj_hyp(
    s: Seq<char>,
    pos1: int,
    m: Seq<(Seq<char>, JsonVal)>,
    rest: Seq<char>,
) -> bool {
    &&& wf(JsonVal::Obj(m))
    &&& 0 <= pos1 <= s.len()
    &&& s.skip(pos1) == ser_members(m) + seq!['}'] + rest
}

/// The parse result is exactly the member list `m`, ending at `q`.
pub open spec fn obj_ok(
    r: Option<(Vec<(String, Json)>, usize)>,
    m: Seq<(Seq<char>, JsonVal)>,
    q: int,
) -> bool {
    match r {
        Option::Some((vec, q2)) => member_views_of(vec@) == m && q2 == q,
        Option::None => false,
    }
}

/// Index facts about a canonical value text inside the input.
proof fn lemma_value_at(s: Seq<char>, pos: int, v: JsonVal, rest: Seq<char>)
    requires
        value_hyp(s, pos, v, rest),
    ensures
        ser(v).len() >= 1,
        pos + ser(v).len() + rest.len() == s.len(),
        pos < s.len(),
        forall|k: int| 0 <= k < ser(v).len() ==> s[pos + k] == ser(v)[k],
        rest.len() > 0 ==> s[pos + ser(v).len()] == rest[0],
{
    lemma_ser_shape(v);
    assert(s.skip(pos).len() == s.len() - pos);
    assert forall|k: int| 0 <= k < ser(v).len() implies s[pos + k] == ser(v)[k] by {
        assert(s[pos + k] == s.skip(pos)[k]);
        assert((ser(v) + rest)[k] == ser(v)[k]);
    }
    if rest.len() > 0 {
        assert(s[pos + ser(v).len()] == s.skip(pos)[ser(v).len() as int]);
    }
}

/// Dropping `d` more characters commutes with dropping `pos` first.
proof fn lemma_skip_shift(s: Seq<char>, pos: int, d: int)
    requires
        0 <= pos,
        0 <= d,
        pos + d <= s.len(),
    ensures
        s.skip(pos + d) == s.skip(pos).skip(d),
{
    assert(s.skip(pos + d) =~= s.skip(pos).skip(d));
}

/// Head decomposition of a serialized element list.
proof fn lemma_ser_elems_head(a: Seq<JsonVal>, k: int)
    requires
        0 <= k < a.len(),
    ensures
        k + 1 == a.len() ==> ser_elems(a.skip(k)) == ser(a[k]),
        k + 1 < a.len() ==> ser_elems(a.skip(k)) == ser(a[k]) + seq![','] + ser_elems(
            a.skip(k + 1),
        ),
{
    assert(a.skip(k).len() == a.len() - k);
    assert(a.skip(k)[0] == a[k]);
    assert(a.skip(k).drop_first() =~= a.skip(k + 1));
}

/// Head decomposition of a serialized member list.
proof fn lemma_ser_members_head(m: Seq<(Seq<char>, JsonVal)>, k: int)
    requires
        0 <= k < m.len(),
    ensures
        k + 1 == m.len() ==> ser_members(m.skip(k)) == ser_member(m[k].0, m[k].1),
        k + 1 < m.len() ==> ser_members(m.skip(k)) == ser_member(m[k].0, m[k].1) + seq![',']
            + ser_members(m.skip(k + 1)),
{
    assert(m.skip(k).len() == m.len() - k);
    assert(m.skip(k)[0] == m[k]);
    assert(m.skip(k).drop_first() =~= m.skip(k + 1));
}

/// The value of a hexadecimal digit, upper or lower case.
fn hex_val(c: char) -> (r: Option<u8>)
    ensures
        r matches Some(v) ==> v < 16,
{
    let u = c as u32;
    if 48 <= u && u <= 57 {
        Some((u - 48) as u8)
    } else if 97 <= u && u <= 102 {
        Some((u - 97 + 10) as u8)
    } else if 65 <= u && u <= 70 {
        Some((u - 65 + 10) as u8)
    } else {
        None
    }
}

/// Relies on std's char::from_u32: it succeeds exactly on scalar values —
/// at most 0x10FFFF and not a surrogate — and yields the character with
/// that value.
#[verifier::external_body]
fn char_from_u32(v: u32) -> (r: Option<char>)
    ensures
        r matches Some(c) ==> c as u32 == v,
        r is Some <==> (v < 0xD800 || (0xE000 <= v && v <= 0x10FFFF)),
{
    char::from_u32(v)
}

/// Parse the body of a JSON string, starting just after the opening
/// quote; returns the decoded characters and the position just after the
/// closing quote. Accepts the escapes `\" \\ \n \r \t` and any
/// non-control character; on the escaped text of any well-formed `t` it
/// returns exactly `t`.
#[verifier::rlimit(100)]
fn parse_str_body(s: &str, n: usize, pos1: usize) -> (r: Option<(Vec<char>, usize)>)
    requires
        n == s@.len(),
        pos1 <= n,
    ensures
        match r {
            Option::Some((cs, q)) => pos1 < q <= n && wf_str(cs@),
            Option::None => true,
        },
        forall|t: Seq<char>, rest: Seq<char>| #[trigger]
            str_hyp(s@, pos1 as int, t, rest) ==> str_ok(r, t, pos1 + escape(t).len() + 1),
{
    let mut out: Vec<char> = Vec::new();
    let mut cur = pos1;
    proof {
        assert(escape(Seq::<char>::empty()) == Seq::<char>::empty());
    }
    loop
        invariant
            n == s@.len(),
            pos1 <= cur <= n,
            wf_str(out@),
            forall|t: Seq<char>, rest: Seq<char>| #[trigger]
                str_hyp(s@, pos1 as int, t, rest) ==> out@.len() <= t.len() && out@ == t.take(
                    out@.len() as int,
                ) && cur == pos1 + escape(t.take(out@.len() as int)).len(),
        decreases n - cur,
    {
        let ghost out0 = out@;
        let ghost cur0 = cur as int;
        if cur >= n {
            proof {
                assert forall|t: Seq<char>, rest: Seq<char>| #[trigger]
                    str_hyp(s@, pos1 as int, t, rest) implies false by {
                    lemma_str_state(s@, pos1 as int, t, rest, out0.len() as int, cur0);
                }
            }
            return None;
        }
        let c = s.get_char(cur);
        if c == '"' {
            proof {
                assert forall|t: Seq<char>, rest: Seq<char>| #[trigger]
                    str_hyp(s@, pos1 as int, t, rest) implies out@ == t && cur + 1 == pos1
                    + escape(t).len() + 1 by {
                    lemma_str_state(s@, pos1 as int, t, rest, out0.len() as int, cur0);
                    if out0.len() < t.len() {
                        // the next character would be part of an escape, not a quote
                        assert(s@[cur0] == esc_char(t[out0.len() as int])[0]);
                        assert(false);
                    }
                    assert(t.take(t.len() as int) =~= t);
                }
            }
            return Some((out, cur + 1));
        }
        if c == '\\' {
            if cur + 1 >= n {
                proof {
                    assert forall|t: Seq<char>, rest: Seq<char>| #[trigger]
                        str_hyp(s@, pos1 as int, t, rest) implies false by {
                        lemma_str_state(s@, pos1 as int, t, rest, out0.len() as int, cur0);
                    }
                }
                return None;
            }
            let e = s.get_char(cur + 1);
            if e == 'u' {
                // a \uXXXX escape names a character by four hex digits;
                // the canonical text never contains one
                proof {
                    assert forall|t: Seq<char>, rest: Seq<char>| #[trigger]
                        str_hyp(s@, pos1 as int, t, rest) implies false by {
                        lemma_str_state(s@, pos1 as int, t, rest, out0.len() as int, cur0);
                    }
                }
                if n - cur < 6 {
                    return None;
                }
                let h1 = hex_val(s.get_char(cur + 2));
                let h2 = hex_val(s.get_char(cur + 3));
                let h3 = hex_val(s.get_char(cur + 4));
                let h4 = hex_val(s.get_char(cur + 5));
                match (h1, h2, h3, h4) {
                    (Some(d1), Some(d2), Some(d3), Some(d4)) => {
                        let code: u32 = (d1 as u32) * 4096 + (d2 as u32) * 256 + (d3 as u32) * 16
                            + (d4 as u32);
                        match char_from_u32(code) {
                            Some(ch) => {
                                let representable = ch == '\n' || ch == '\r' || ch == '\t' || ch
                                    == '\u{8}' || ch == '\u{c}' || (ch as u32) >= 0x20;
                                if !representable {
                                    return None;
                                }
                                out.push(ch);
                                cur = cur + 6;
                            },
                            None => {
                                return None;
                            },
                        }
                    },
                    _ => {
                        return None;
                    },
                }
                continue;
            }
            let unescaped: char = match e {
                '"' => '"',
                '\\' => '\\',
                'n' => '\n',
                'r' => '\r',
                't' => '\t',
                'b' => '\u{8}',
                'f' => '\u{c}',
                '/' => '/',
                _ => {
                    proof {
                        assert forall|t: Seq<char>, rest: Seq<char>| #[trigger]
                            str_hyp(s@, pos1 as int, t, rest) implies false by {
                            lemma_str_state(s@, pos1 as int, t, rest, out0.len() as int, cur0);
                        }
                    }
                    return None;
                },
            };
            out.push(unescaped);
            cur = cur + 2;
            proof {
                assert forall|t: Seq<char>, rest: Seq<char>| #[trigger]
                    str_hyp(s@, pos1 as int, t, rest) implies out@.len() <= t.len() && out@
                    == t.take(out@.len() as int) && cur == pos1 + escape(
                    t.take(out@.len() as int),
                ).len() by {
                    lemma_str_state(s@, pos1 as int, t, rest, out0.len() as int, cur0);
                    let k = out0.len() as int;
                    assert(k < t.len());
                    assert(esc_char(t[k]).len() == 2);
                    assert(t[k] == unescaped);
                    assert(out@ =~= t.take(k + 1));
                }
            }
        } else {
            if (c as u32) < 0x20 {
                proof {
                    assert forall|t: Seq<char>, rest: Seq<char>| #[trigger]
                        str_hyp(s@, pos1 as int, t, rest) implies false by {
                        lemma_str_state(s@, pos1 as int, t, rest, out0.len() as int, cur0);
                    }
                }
                return None;
            }
            out.push(c);
            cur = cur + 1;
            proof {
                assert forall|t: Seq<char>, rest: Seq<char>| #[trigger]
                    str_hyp(s@, pos1 as int, t, rest) implies out@.len() <= t.len() && out@
                    == t.take(out@.len() as int) && cur == pos1 + escape(
                    t.take(out@.len() as int),
                ).len() by {
                    lemma_str_state(s@, pos1 as int, t, rest, out0.len() as int, cur0);
                    let k = out0.len() as int;
                    assert(k < t.len());
                    assert(esc_char(t[k]).len() == 1);
                    assert(t[k] == c);
                    assert(out@ =~= t.take(k + 1));
                }
            }
        }
    }
}

/// What follows element `k` of an array in the input.
pub open spec fn elem_rest(a: Seq<JsonVal>, rest: Seq<char>, k: int) -> Seq<char> {
    if k + 1 < a.len() {
        seq![','] + ser_elems(a.skip(k + 1)) + seq![']'] + rest
    } else {
        seq![']'] + rest
    }
}

/// What follows member `k` of an object in the input.
pub open spec fn member_rest(m: Seq<(Seq<char>, JsonVal)>, rest: Seq<char>, k: int) -> Seq<
    char,
> {
    if k + 1 < m.len() {
        seq![','] + ser_members(m.skip(k + 1)) + seq!['}'] + rest
    } else {
        seq!['}'] + rest
    }
}

/// At the start of an array tail there is no whitespace: either the
/// closing bracket (empty array) or the first element begins at once.
proof fn lemma_arr_entry(s: Seq<char>, pos1: int, a: Seq<JsonVal>, rest: Seq<char>, start: int)
    requires
        arr_hyp(s, pos1, a, rest),
        pos1 <= start <= s.len(),
        forall|q: int| pos1 <= q < start ==> is_ws(#[trigger] s[q]),
    ensures
        pos1 < s.len(),
        start == pos1,
        a.len() == 0 ==> s[pos1] == ']',
        a.len() > 0 ==> s[pos1] == ser(a[0])[0] && !is_ws(s[pos1]) && s[pos1] != ']'
            && s.skip(pos1) == ser_elems(a.skip(0)) + seq![']'] + rest,
{
    assert(s.skip(pos1).len() == s.len() - pos1);
    assert(forall|j: int| 0 <= j < s.len() - pos1 ==> s.skip(pos1)[j] == #[trigger] s[pos1 + j]);
    if a.len() == 0 {
        assert(ser_elems(a).len() == 0);
        assert(s[pos1] == (ser_elems(a) + seq![']'] + rest)[0]);
        assert(s[pos1] == ']');
    } else {
        lemma_ser_shape(a[0]);
        if a.len() == 1 {
            assert(ser_elems(a) == ser(a[0]));
        } else {
            assert(ser_elems(a) == ser(a[0]) + seq![','] + ser_elems(a.drop_first()));
        }
        assert(ser_elems(a)[0] == ser(a[0])[0]);
        assert(s[pos1] == (ser_elems(a) + seq![']'] + rest)[0]);
        assert(a.skip(0) =~= a);
    }
    if start > pos1 {
        assert(is_ws(s[pos1]));
        if a.len() > 0 {
            lemma_ser_shape(a[0]);
            assert(false);
        } else {
            assert(false);
        }
    }
}

/// At the start of element `k` the parser faces exactly that element's
/// canonical text, delimited by a comma or the closing bracket.
proof fn lemma_arr_elem_hyp(
    s: Seq<char>,
    pos1: int,
    a: Seq<JsonVal>,
    rest: Seq<char>,
    k: int,
    cur: int,
)
    requires
        arr_hyp(s, pos1, a, rest),
        0 <= k < a.len(),
        0 <= cur <= s.len(),
        s.skip(cur) == ser_elems(a.skip(k)) + seq![']'] + rest,
    ensures
        value_hyp(s, cur, a[k], elem_rest(a, rest, k)),
        s.skip(cur) == ser(a[k]) + elem_rest(a, rest, k),
{
    lemma_ser_elems_head(a, k);
    if k + 1 == a.len() {
        assert(ser_elems(a.skip(k)) + seq![']'] + rest =~= ser(a[k]) + elem_rest(a, rest, k));
        assert(elem_rest(a, rest, k)[0] == ']');
    } else {
        assert(ser_elems(a.skip(k)) + seq![']'] + rest =~= ser(a[k]) + elem_rest(a, rest, k));
        assert(elem_rest(a, rest, k)[0] == ',');
    }
    assert(!is_digit(elem_rest(a, rest, k)[0]));
    assert(wf(JsonVal::Arr(a)));
    lemma_wf_list(a);
    assert(wf(a[k]));
}

/// After element `k` the next character is a comma or the closing
/// bracket, with no whitespace before it; on the bracket the array ends
/// exactly one character later.
proof fn lemma_arr_after_elem(
    s: Seq<char>,
    pos1: int,
    a: Seq<JsonVal>,
    rest: Seq<char>,
    k: int,
    cur: int,
    cur2: int,
    cur3: int,
)
    requires
        arr_hyp(s, pos1, a, rest),
        0 <= k < a.len(),
        0 <= cur <= s.len(),
        s.skip(cur) == ser_elems(a.skip(k)) + seq![']'] + rest,
        cur2 == cur + ser(a[k]).len(),
        cur2 <= cur3 <= s.len(),
        forall|q: int| cur2 <= q < cur3 ==> is_ws(#[trigger] s[q]),
    ensures
        cur2 < s.len(),
        cur3 == cur2,
        s.skip(cur2) == elem_rest(a, rest, k),
        k + 1 < a.len() ==> s[cur2] == ',' && s.skip(cur2 + 1) == ser_elems(a.skip(k + 1)) + seq![
            ']',
        ] + rest,
        k + 1 == a.len() ==> s[cur2] == ']' && cur2 + 1 == pos1 + ser_elems(a).len() + 1,
{
    lemma_arr_elem_hyp(s, pos1, a, rest, k, cur);
    lemma_ser_shape(a[k]);
    assert(s.skip(cur).len() == s.len() - cur);
    lemma_skip_shift(s, cur, ser(a[k]).len() as int);
    assert(s.skip(cur).skip(ser(a[k]).len() as int) =~= elem_rest(a, rest, k));
    assert(s.skip(cur2) == elem_rest(a, rest, k));
    assert(s.skip(cur2).len() == s.len() - cur2);
    assert(elem_rest(a, rest, k).len() >= 1);
    assert(forall|j: int|
        0 <= j < s.len() - cur2 ==> s.skip(cur2)[j] == #[trigger] s[cur2 + j]);
    assert(s[cur2] == elem_rest(a, rest, k)[0]);
    if cur3 > cur2 {
        assert(is_ws(s[cur2]));
        assert(false);
    }
    if k + 1 < a.len() {
        lemma_skip_shift(s, cur2, 1);
        assert(s.skip(cur2).skip(1) =~= ser_elems(a.skip(k + 1)) + seq![']'] + rest);
    } else {
        // the whole array has been consumed: account for its length
        assert(s.skip(pos1).len() == s.len() - pos1);
        assert(s.len() - pos1 == ser_elems(a).len() + 1 + rest.len());
        assert(s.len() - cur2 == 1 + rest.len());
    }
}

/// The next element after a comma starts at once, with no whitespace.
proof fn lemma_arr_next_elem(
    s: Seq<char>,
    pos1: int,
    a: Seq<JsonVal>,
    rest: Seq<char>,
    k1: int,
    p: int,
)
    requires
        arr_hyp(s, pos1, a, rest),
        0 <= k1 < a.len(),
        0 <= p <= s.len(),
        s.skip(p) == ser_elems(a.skip(k1)) + seq![']'] + rest,
    ensures
        p < s.len(),
        !is_ws(s[p]),
{
    lemma_arr_elem_hyp(s, pos1, a, rest, k1, p);
    lemma_ser_shape(a[k1]);
    assert(s.skip(p).len() == s.len() - p);
    assert(s[p] == s.skip(p)[0]);
    assert(s.skip(p)[0] == (ser(a[k1]) + elem_rest(a, rest, k1))[0]);
    assert(s[p] == ser(a[k1])[0]);
}

/// At the start of an object tail there is no whitespace: either the
/// closing brace (empty object) or the first member's key begins at once.
proof fn lemma_obj_entry(
    s: Seq<char>,
    pos1: int,
    m: Seq<(Seq<char>, JsonVal)>,
    rest: Seq<char>,
    start: int,
)
    requires
        obj_hyp(s, pos1, m, rest),
        pos1 <= start <= s.len(),
        forall|q: int| pos1 <= q < start ==> is_ws(#[trigger] s[q]),
    ensures
        pos1 < s.len(),
        start == pos1,
        m.len() == 0 ==> s[pos1] == '}',
        m.len() > 0 ==> s[pos1] == '"' && s.skip(pos1) == ser_members(m.skip(0)) + seq!['}']
            + rest,
{
    assert(s.skip(pos1).len() == s.len() - pos1);
    assert(forall|j: int| 0 <= j < s.len() - pos1 ==> s.skip(pos1)[j] == #[trigger] s[pos1 + j]);
    if m.len() == 0 {
        assert(ser_members(m).len() == 0);
        assert(s[pos1] == (ser_members(m) + seq!['}'] + rest)[0]);
    } else {
        if m.len() == 1 {
            assert(ser_members(m) == ser_member(m[0].0, m[0].1));
        } else {
            assert(ser_members(m) == ser_member(m[0].0, m[0].1) + seq![','] + ser_members(
                m.drop_first(),
            ));
        }
        assert(ser_member(m[0].0, m[0].1)[0] == '"');
        assert(ser_members(m)[0] == '"');
        assert(s[pos1] == (ser_members(m) + seq!['}'] + rest)[0]);
        assert(m.skip(0) =~= m);
    }
    if start > pos1 {
        assert(is_ws(s[pos1]));
        assert(false);
    }
}

/// At the start of member `k` the parser faces its quoted key, a colon,
/// the member's value, and then a comma or the closing brace.
proof fn lemma_obj_member_hyp(
    s: Seq<char>,
    pos1: int,
    m: Seq<(Seq<char>, JsonVal)>,
    rest: Seq<char>,
    k: int,
    cur: int,
)
    requires
        obj_hyp(s, pos1, m, rest),
        0 <= k < m.len(),
        0 <= cur <= s.len(),
        s.skip(cur) == ser_members(m.skip(k)) + seq!['}'] + rest,
    ensures
        cur < s.len(),
        s[cur] == '"',
        str_hyp(s, cur + 1, m[k].0, seq![':'] + ser(m[k].1) + member_rest(m, rest, k)),
        s[cur + 2 + escape(m[k].0).len()] == ':',
        !is_ws(s[cur + 3 + escape(m[k].0).len()]),
        cur + 3 + escape(m[k].0).len() < s.len(),
        value_hyp(s, cur + 3 + escape(m[k].0).len(), m[k].1, member_rest(m, rest, k)),
        s.skip(cur + 3 + escape(m[k].0).len()) == ser(m[k].1) + member_rest(m, rest, k),
{
    let k0 = m[k].0;
    let v0 = m[k].1;
    let tail = member_rest(m, rest, k);
    lemma_ser_members_head(m, k);
    lemma_ser_shape(v0);
    assert(wf(JsonVal::Obj(m)));
    lemma_wf_member_list(m);
    assert(wf_str(m[k].0) && wf(m[k].1));
    assert(wf_str(k0) && wf(v0));
    assert(ser_member(k0, v0) == seq!['"'] + escape(k0) + seq!['"', ':'] + ser(v0));
    assert(s.skip(cur) =~= seq!['"'] + escape(k0) + seq!['"', ':'] + ser(v0) + tail);
    assert(s.skip(cur).len() == s.len() - cur);
    assert(forall|j: int| 0 <= j < s.len() - cur ==> s.skip(cur)[j] == #[trigger] s[cur + j]);
    assert(s[cur] == (seq!['"'] + escape(k0) + seq!['"', ':'] + ser(v0) + tail)[0]);
    lemma_skip_shift(s, cur, 1);
    assert(s.skip(cur + 1) =~= escape(k0) + seq!['"'] + (seq![':'] + ser(v0) + tail));
    let qk = cur + 2 + escape(k0).len();
    assert(s[qk] == (seq!['"'] + escape(k0) + seq!['"', ':'] + ser(v0) + tail)[qk - cur]);
    lemma_skip_shift(s, cur, qk + 1 - cur);
    assert(s.skip(qk + 1) =~= ser(v0) + tail);
    assert(s[qk + 1] == (seq!['"'] + escape(k0) + seq!['"', ':'] + ser(v0) + tail)[qk + 1 - cur]);
    assert(s[qk + 1] == ser(v0)[0]);
    assert(tail.len() >= 1);
    assert(delim_ok(tail));
}

/// After member `k`'s value the next character is a comma or the closing
/// brace, with no whitespace before it; on the brace the object ends
/// exactly one character later.
proof fn lemma_obj_after_value(
    s: Seq<char>,
    pos1: int,
    m: Seq<(Seq<char>, JsonVal)>,
    rest: Seq<char>,
    k: int,
    curv: int,
    q2: int,
    cur5: int,
)
    requires
        obj_hyp(s, pos1, m, rest),
        0 <= k < m.len(),
        0 <= curv <= s.len(),
        s.skip(curv) == ser(m[k].1) + member_rest(m, rest, k),
        q2 == curv + ser(m[k].1).len(),
        q2 <= cur5 <= s.len(),
        forall|q: int| q2 <= q < cur5 ==> is_ws(#[trigger] s[q]),
    ensures
        q2 < s.len(),
        cur5 == q2,
        k + 1 < m.len() ==> s[q2] == ',' && s.skip(q2 + 1) == ser_members(m.skip(k + 1)) + seq![
            '}',
        ] + rest,
        k + 1 == m.len() ==> s[q2] == '}' && q2 + 1 == pos1 + ser_members(m).len() + 1,
{
    let tail = member_rest(m, rest, k);
    lemma_skip_shift(s, curv, ser(m[k].1).len() as int);
    assert(s.skip(curv).skip(ser(m[k].1).len() as int) =~= tail);
    assert(s.skip(q2) == tail);
    assert(s.skip(q2).len() == s.len() - q2);
    assert(tail.len() >= 1);
    assert(forall|j: int| 0 <= j < s.len() - q2 ==> s.skip(q2)[j] == #[trigger] s[q2 + j]);
    assert(s[q2] == tail[0]);
    if cur5 > q2 {
        assert(is_ws(s[q2]));
        assert(false);
    }
    if k + 1 < m.len() {
        lemma_skip_shift(s, q2, 1);
        assert(s.skip(q2).skip(1) =~= ser_members(m.skip(k + 1)) + seq!['}'] + rest);
    } else {
        assert(s.skip(pos1).len() == s.len() - pos1);
        assert(s.len() - pos1 == ser_members(m).len() + 1 + rest.len());
        assert(s.len() - q2 == 1 + rest.len());
    }
}

/// The next member after a comma starts at once, with its opening quote.
proof fn lemma_obj_next_member(
    s: Seq<char>,
    pos1: int,
    m: Seq<(Seq<char>, JsonVal)>,
    rest: Seq<char>,
    k1: int,
    p: int,
)
    requires
        obj_hyp(s, pos1, m, rest),
        0 <= k1 < m.len(),
        0 <= p <= s.len(),
        s.skip(p) == ser_members(m.skip(k1)) + seq!['}'] + rest,
    ensures
        p < s.len(),
        !is_ws(s[p]),
        s[p] == '"',
{
    lemma_obj_member_hyp(s, pos1, m, rest, k1, p);
}

/// Scanner mode while erasing insignificant whitespace: outside any
/// string literal, inside one, or right after a backslash inside one.
pub enum ScanMode {
    Outside,
    Inside,
    Escaped,
}

/// Characters that could extend a number or literal token, so that
/// erasing the whitespace between two of them would merge tokens.
pub open spec fn atom_char(c: char) -> bool {
    is_digit(c) || c == '-' || c == '+' || c == '.' || (97 <= c as u32 <= 122) || (65 <= c as u32
        <= 90)
}

/// Scanner state: the mode, whether the last kept character could extend
/// a token, and whether whitespace was erased since the last kept one.
pub open spec fn scan_step(st: (ScanMode, bool, bool), c: char) -> (ScanMode, bool, bool) {
    match st.0 {
        ScanMode::Outside => if is_ws(c) {
            (ScanMode::Outside, st.1, true)
        } else if c == '"' {
            (ScanMode::Inside, false, false)
        } else {
            (ScanMode::Outside, atom_char(c), false)
        },
        ScanMode::Inside => if c == '\\' {
            (ScanMode::Escaped, false, false)
        } else if c == '"' {
            (ScanMode::Outside, false, false)
        } else {
            (ScanMode::Inside, false, false)
        },
        ScanMode::Escaped => (ScanMode::Inside, false, false),
    }
}

/// What one character contributes to the compact text: string contents
/// verbatim, whitespace outside strings nothing — except one space where
/// erasing it would merge two tokens.
pub open spec fn scan_emit(st: (ScanMode, bool, bool), c: char) -> Seq<char> {
    match st.0 {
        ScanMode::Outside => if is_ws(c) {
            Seq::empty()
        } else if st.2 && st.1 && atom_char(c) {
            seq![' ', c]
        } else {
            seq![c]
        },
        _ => seq![c],
    }
}

/// The compact text of `t` scanned from state `st`.
pub open spec fn scan_from(t: Seq<char>, st: (ScanMode, bool, bool)) -> Seq<char>
    decreases t.len(),
{
    if t.len() == 0 {
        Seq::empty()
    } else {
        scan_emit(st, t[0]) + scan_from(t.drop_first(), scan_step(st, t[0]))
    }
}

/// The scanner state after `t`.
pub open spec fn scan_state(t: Seq<char>, st: (ScanMode, bool, bool)) -> (ScanMode, bool, bool)
    decreases t.len(),
{
    if t.len() == 0 {
        st
    } else {
        scan_state(t.drop_first(), scan_step(st, t[0]))
    }
}

/// The compact form of a JSON text: its whitespace outside string
/// literals erased, except that a single space stays where erasing it
/// would merge two number or literal tokens.
pub open spec fn compact(t: Seq<char>) -> Seq<char> {
    scan_from(t, (ScanMode::Outside, false, false))
}

/// Scanning one more character appends its contribution.
proof fn lemma_scan_snoc(t: Seq<char>, c: char, st: (ScanMode, bool, bool))
    ensures
        scan_from(t.push(c), st) == scan_from(t, st) + scan_emit(scan_state(t, st), c),
        scan_state(t.push(c), st) == scan_step(scan_state(t, st), c),
    decreases t.len(),
{
    if t.len() == 0 {
        assert(t.push(c).drop_first() =~= Seq::<char>::empty());
        assert(t.push(c)[0] == c);
        assert(scan_from(t.push(c), st) == scan_emit(st, c) + scan_from(
            t.push(c).drop_first(),
            scan_step(st, c),
        ));
        assert(scan_from(Seq::<char>::empty(), scan_step(st, c)) == Seq::<char>::empty());
        assert(scan_from(t, st) == Seq::<char>::empty());
        assert(scan_state(t, st) == st);
        assert(scan_state(Seq::<char>::empty(), scan_step(st, c)) == scan_step(st, c));
        assert(scan_from(t.push(c), st) =~= scan_from(t, st) + scan_emit(scan_state(t, st), c));
    } else {
        assert(t.push(c).drop_first() =~= t.drop_first().push(c));
        assert(t.push(c)[0] == t[0]);
        lemma_scan_snoc(t.drop_first(), c, scan_step(st, t[0]));
        assert(scan_from(t.push(c), st) =~= scan_from(t, st) + scan_emit(scan_state(t, st), c));
    }
}

/// Scanning distributes over concatenation, threading the state.
proof fn lemma_scan_concat(a: Seq<char>, b: Seq<char>, st: (ScanMode, bool, bool))
    ensures
        scan_from(a + b, st) == scan_from(a, st) + scan_from(b, scan_state(a, st)),
        scan_state(a + b, st) == scan_state(b, scan_state(a, st)),
    decreases a.len(),
{
    if a.len() == 0 {
        assert(a + b =~= b);
        assert(scan_from(a, st) + scan_from(b, st) =~= scan_from(b, st));
    } else {
        assert((a + b).drop_first() =~= a.drop_first() + b);
        assert((a + b)[0] == a[0]);
        lemma_scan_concat(a.drop_first(), b, scan_step(st, a[0]));
        assert(scan_from(a + b, st) =~= scan_from(a, st) + scan_from(b, scan_state(a, st)));
    }
}

/// One character's scan, spelled out.
proof fn lemma_scan_one(c: char, st: (ScanMode, bool, bool))
    ensures
        scan_from(seq![c], st) == scan_emit(st, c),
        scan_state(seq![c], st) == scan_step(st, c),
{
    assert(seq![c].drop_first() =~= Seq::<char>::empty());
    assert(seq![c][0] == c);
    assert(scan_from(Seq::<char>::empty(), scan_step(st, c)) == Seq::<char>::empty());
    assert(scan_from(seq![c], st) =~= scan_emit(st, c));
    assert(scan_state(Seq::<char>::empty(), scan_step(st, c)) == scan_step(st, c));
}

/// Text without whitespace or quotes scans to itself outside strings.
proof fn lemma_scan_plain(t: Seq<char>, pa: bool)
    requires
        forall|i: int| 0 <= i < t.len() ==> !is_ws(#[trigger] t[i]) && t[i] != '"',
    ensures
        scan_from(t, (ScanMode::Outside, pa, false)) == t,
        scan_state(t, (ScanMode::Outside, pa, false)).0 is Outside,
        scan_state(t, (ScanMode::Outside, pa, false)).2 == false,
    decreases t.len(),
{
    if t.len() > 0 {
        let st = (ScanMode::Outside, pa, false);
        assert(scan_emit(st, t[0]) == seq![t[0]]);
        assert(scan_step(st, t[0]) == (ScanMode::Outside, atom_char(t[0]), false));
        lemma_scan_plain(t.drop_first(), atom_char(t[0]));
        assert(scan_from(t, st) =~= t);
    }
}

/// One escape sequence scans to itself inside a string.
proof fn lemma_scan_esc_char(c: char)
    ensures
        scan_from(esc_char(c), (ScanMode::Inside, false, false)) == esc_char(c),
        scan_state(esc_char(c), (ScanMode::Inside, false, false)) == (
            ScanMode::Inside,
            false,
            false,
        ),
{
    let e = esc_char(c);
    let st0 = (ScanMode::Inside, false, false);
    if e.len() == 2 {
        assert(e[0] == '\\');
        assert(e =~= seq![e[0]] + seq![e[1]]);
        lemma_scan_one(e[0], st0);
        lemma_scan_one(e[1], (ScanMode::Escaped, false, false));
        lemma_scan_concat(seq![e[0]], seq![e[1]], st0);
        assert(scan_from(e, st0) =~= e);
    } else {
        assert(e =~= seq![c]);
        assert(c != '"' && c != '\\');
        lemma_scan_one(c, st0);
        assert(scan_from(e, st0) =~= e);
    }
}

/// Escaped string contents scan to themselves inside a string.
proof fn lemma_scan_in_string(sv: Seq<char>)
    ensures
        scan_from(escape(sv), (ScanMode::Inside, false, false)) == escape(sv),
        scan_state(escape(sv), (ScanMode::Inside, false, false)) == (
            ScanMode::Inside,
            false,
            false,
        ),
    decreases sv.len(),
{
    let st0 = (ScanMode::Inside, false, false);
    if sv.len() == 0 {
        assert(scan_from(escape(sv), st0) =~= escape(sv));
    } else {
        lemma_scan_esc_char(sv[0]);
        lemma_scan_in_string(sv.drop_first());
        lemma_scan_concat(esc_char(sv[0]), escape(sv.drop_first()), st0);
        assert(scan_from(escape(sv), st0) =~= escape(sv));
    }
}

/// A canonical value text scans to itself.
proof fn lemma_scan_ser(v: JsonVal, pa: bool)
    ensures
        scan_from(ser(v), (ScanMode::Outside, pa, false)) == ser(v),
        scan_state(ser(v), (ScanMode::Outside, pa, false)).0 is Outside,
        scan_state(ser(v), (ScanMode::Outside, pa, false)).2 == false,
    decreases v, 0int,
{
    let st0 = (ScanMode::Outside, pa, false);
    match v {
        JsonVal::Null => {
            assert forall|i: int| 0 <= i < ser(v).len() implies !is_ws(#[trigger] ser(v)[i])
                && ser(v)[i] != '"' by {}
            lemma_scan_plain(ser(v), pa);
        },
        JsonVal::Bool(_) => {
            assert forall|i: int| 0 <= i < ser(v).len() implies !is_ws(#[trigger] ser(v)[i])
                && ser(v)[i] != '"' by {}
            lemma_scan_plain(ser(v), pa);
        },
        JsonVal::Int(iv) => {
            lemma_ser_int_shape(iv);
            lemma_ser_nat_shape(abs_n(iv));
            assert forall|i: int| 0 <= i < ser(v).len() implies !is_ws(#[trigger] ser(v)[i])
                && ser(v)[i] != '"' by {
                if iv < 0 {
                    if i > 0 {
                        assert(ser(v)[i] == ser_int(iv).drop_first()[i - 1]);
                        assert(is_digit(ser(v)[i]));
                    }
                } else {
                    assert(is_digit(ser(v)[i]));
                }
            }
            lemma_scan_plain(ser(v), pa);
        },
        JsonVal::Str(sv) => {
            lemma_scan_quoted(sv, pa);
        },
        JsonVal::Arr(a) => {
            lemma_scan_one('[', st0);
            let st1 = scan_state(seq!['['], st0);
            assert(st1 == (ScanMode::Outside, atom_char('['), false));
            lemma_scan_elems(a, st1.1);
            let st2 = scan_state(ser_elems(a), st1);
            assert(st2 == (ScanMode::Outside, st2.1, false));
            lemma_scan_one(']', st2);
            lemma_scan_concat(seq!['['], ser_elems(a) + seq![']'], st0);
            lemma_scan_concat(ser_elems(a), seq![']'], st1);
            assert(ser(v) =~= seq!['['] + (ser_elems(a) + seq![']']));
            assert(scan_from(ser(v), st0) =~= ser(v));
        },
        JsonVal::Obj(m) => {
            lemma_scan_one('{', st0);
            let st1 = scan_state(seq!['{'], st0);
            assert(st1 == (ScanMode::Outside, atom_char('{'), false));
            lemma_scan_members(m, st1.1);
            let st2 = scan_state(ser_members(m), st1);
            assert(st2 == (ScanMode::Outside, st2.1, false));
            lemma_scan_one('}', st2);
            lemma_scan_concat(seq!['{'], ser_members(m) + seq!['}'], st0);
            lemma_scan_concat(ser_members(m), seq!['}'], st1);
            assert(ser(v) =~= seq!['{'] + (ser_members(m) + seq!['}']));
            assert(scan_from(ser(v), st0) =~= ser(v));
        },
    }
}

/// A canonical string literal scans to itself.
proof fn lemma_scan_quoted(sv: Seq<char>, pa: bool)
    ensures
        scan_from(seq!['"'] + escape(sv) + seq!['"'], (ScanMode::Outside, pa, false)) == seq!['"']
            + escape(sv) + seq!['"'],
        scan_state(seq!['"'] + escape(sv) + seq!['"'], (ScanMode::Outside, pa, false)) == (
            ScanMode::Outside,
            false,
            false,
        ),
{
    let st0 = (ScanMode::Outside, pa, false);
    let t = seq!['"'] + escape(sv) + seq!['"'];
    lemma_scan_one('"', st0);
    assert(scan_state(seq!['"'], st0) == (ScanMode::Inside, false, false));
    lemma_scan_in_string(sv);
    lemma_scan_one('"', (ScanMode::Inside, false, false));
    lemma_scan_concat(seq!['"'], escape(sv) + seq!['"'], st0);
    lemma_scan_concat(escape(sv), seq!['"'], (ScanMode::Inside, false, false));
    assert(t =~= seq!['"'] + (escape(sv) + seq!['"']));
    assert(scan_from(t, st0) =~= t);
}

/// A canonical element list scans to itself.
proof fn lemma_scan_elems(a: Seq<JsonVal>, pa: bool)
    ensures
        scan_from(ser_elems(a), (ScanMode::Outside, pa, false)) == ser_elems(a),
        scan_state(ser_elems(a), (ScanMode::Outside, pa, false)).0 is Outside,
        scan_state(ser_elems(a), (ScanMode::Outside, pa, false)).2 == false,
    decreases a, 0int,
{
    let st0 = (ScanMode::Outside, pa, false);
    if a.len() == 0 {
    } else if a.len() == 1 {
        lemma_scan_ser(a[0], pa);
    } else {
        lemma_scan_ser(a[0], pa);
        let st1 = scan_state(ser(a[0]), st0);
        assert(st1 == (ScanMode::Outside, st1.1, false));
        lemma_scan_one(',', st1);
        let st2 = scan_step(st1, ',');
        assert(st2 == (ScanMode::Outside, atom_char(','), false));
        lemma_scan_elems(a.drop_first(), st2.1);
        lemma_scan_concat(ser(a[0]), seq![','] + ser_elems(a.drop_first()), st0);
        lemma_scan_concat(seq![','], ser_elems(a.drop_first()), st1);
        assert(ser_elems(a) =~= ser(a[0]) + (seq![','] + ser_elems(a.drop_first())));
        assert(scan_from(ser_elems(a), st0) =~= ser_elems(a));
    }
}

/// A canonical member scans to itself.
proof fn lemma_scan_member(k: Seq<char>, v: JsonVal, pa: bool)
    ensures
        scan_from(ser_member(k, v), (ScanMode::Outside, pa, false)) == ser_member(k, v),
        scan_state(ser_member(k, v), (ScanMode::Outside, pa, false)).0 is Outside,
        scan_state(ser_member(k, v), (ScanMode::Outside, pa, false)).2 == false,
    decreases v, 1int,
{
    let st0 = (ScanMode::Outside, pa, false);
    let key = seq!['"'] + escape(k) + seq!['"'];
    lemma_scan_quoted(k, pa);
    let st1 = scan_state(key, st0);
    lemma_scan_one(':', st1);
    let st2 = scan_step(st1, ':');
    assert(st2 == (ScanMode::Outside, atom_char(':'), false));
    lemma_scan_ser(v, st2.1);
    lemma_scan_concat(key, seq![':'] + ser(v), st0);
    lemma_scan_concat(seq![':'], ser(v), st1);
    assert(ser_member(k, v) =~= key + (seq![':'] + ser(v)));
    assert(scan_from(ser_member(k, v), st0) =~= ser_member(k, v));
    assert(scan_state(ser_member(k, v), st0) == scan_state(ser(v), st2));
}

/// A canonical member list scans to itself.
proof fn lemma_scan_members(m: Seq<(Seq<char>, JsonVal)>, pa: bool)
    ensures
        scan_from(ser_members(m), (ScanMode::Outside, pa, false)) == ser_members(m),
        scan_state(ser_members(m), (ScanMode::Outside, pa, false)).0 is Outside,
        scan_state(ser_members(m), (ScanMode::Outside, pa, false)).2 == false,
    decreases m, 0int,
{
    let st0 = (ScanMode::Outside, pa, false);
    if m.len() == 0 {
    } else if m.len() == 1 {
        lemma_scan_member(m[0].0, m[0].1, pa);
    } else {
        lemma_scan_member(m[0].0, m[0].1, pa);
        let st1 = scan_state(ser_member(m[0].0, m[0].1), st0);
        assert(st1 == (ScanMode::Outside, st1.1, false));
        lemma_scan_one(',', st1);
        let st2 = scan_step(st1, ',');
        assert(st2 == (ScanMode::Outside, atom_char(','), false));
        lemma_scan_members(m.drop_first(), st2.1);
        lemma_scan_concat(ser_member(m[0].0, m[0].1), seq![','] + ser_members(m.drop_first()), st0);
        lemma_scan_concat(seq![','], ser_members(m.drop_first()), st1);
        assert(ser_members(m) =~= ser_member(m[0].0, m[0].1) + (seq![','] + ser_members(
            m.drop_first(),
        )));
        assert(scan_from(ser_members(m), st0) =~= ser_members(m));
    }
}

/// Law: a canonical text is its own compact form, so every statement over
/// compact forms covers the canonical text itself.
pub proof fn lemma_compact_canonical(v: JsonVal)
    ensures
        compact(ser(v)) == ser(v),
{
    lemma_scan_ser(v, false);
}

/// The scanner mode tracked by two flags.
pub open spec fn mode_of(inside: bool, escaped: bool) -> ScanMode {
    if escaped {
        ScanMode::Escaped
    } else if inside {
        ScanMode::Inside
    } else {
        ScanMode::Outside
    }
}

/// Whether `c` could extend a number or literal token.
fn is_atom_exec(c: char) -> (r: bool)
    ensures
        r == atom_char(c),
{
    if is_digit_exec(c) || c == '-' || c == '+' || c == '.' {
        true
    } else {
        let u = c as u32;
        (97 <= u && u <= 122) || (65 <= u && u <= 90)
    }
}

/// The compact form of a text: whitespace outside string literals
/// erased, except one space where erasing it would merge two tokens.
fn compact_chars(s: &str) -> (out: Vec<char>)
    ensures
        out@ == compact(s@),
{
    let n = s.unicode_len();
    let mut out: Vec<char> = Vec::new();
    let mut inside = false;
    let mut escaped = false;
    let mut prev_atom = false;
    let mut pending = false;
    let mut i: usize = 0;
    proof {
        assert(s@.take(0) =~= Seq::<char>::empty());
    }
    while i < n
        invariant
            n == s@.len(),
            i <= n,
            (mode_of(inside, escaped), prev_atom, pending) == scan_state(
                s@.take(i as int),
                (ScanMode::Outside, false, false),
            ),
            out@ == scan_from(s@.take(i as int), (ScanMode::Outside, false, false)),
        decreases n - i,
    {
        let c = s.get_char(i);
        proof {
            lemma_scan_snoc(s@.take(i as int), c, (ScanMode::Outside, false, false));
            assert(s@.take(i as int).push(c) =~= s@.take(i + 1 as int));
        }
        let ghost st_here = (mode_of(inside, escaped), prev_atom, pending);
        if escaped {
            out.push(c);
            escaped = false;
            inside = true;
            prev_atom = false;
            pending = false;
            proof {
                assert(scan_emit(st_here, c) =~= seq![c]);
                assert((mode_of(inside, escaped), prev_atom, pending) == scan_step(st_here, c));
            }
        } else if inside {
            out.push(c);
            if c == '\\' {
                escaped = true;
            } else if c == '"' {
                inside = false;
            }
            prev_atom = false;
            pending = false;
            proof {
                assert(scan_emit(st_here, c) =~= seq![c]);
                assert((mode_of(inside, escaped), prev_atom, pending) == scan_step(st_here, c));
            }
        } else {
            if c == ' ' || c == '\t' || c == '\n' || c == '\r' {
                pending = true;
                proof {
                    assert(scan_emit(st_here, c) =~= Seq::<char>::empty());
                    assert((mode_of(inside, escaped), prev_atom, pending) == scan_step(st_here, c));
                }
            } else {
                let a = is_atom_exec(c);
                if pending && prev_atom && a {
                    out.push(' ');
                    proof {
                        assert(scan_emit(st_here, c) =~= seq![' ', c]);
                    }
                } else {
                    proof {
                        assert(scan_emit(st_here, c) =~= seq![c]);
                    }
                }
                out.push(c);
                if c == '"' {
                    inside = true;
                    prev_atom = false;
                } else {
                    prev_atom = a;
                }
                pending = false;
                proof {
                    assert((mode_of(inside, escaped), prev_atom, pending) == scan_step(st_here, c));
                }
            }
        }
        proof {
            assert((mode_of(inside, escaped), prev_atom, pending) == scan_step(st_here, c));
            assert(out@ =~= scan_from(s@.take(i + 1 as int), (ScanMode::Outside, false, false)));
        }
        i = i + 1;
    }
    proof {
        assert(s@.take(n as int) =~= s@);
    }
    out
}

/// Which first character can begin the text of each value.
pub open spec fn opens(c: char, v: JsonVal) -> bool {
    match v {
        JsonVal::Null => c == 'n',
        JsonVal::Bool(b) => if b {
            c == 't'
        } else {
            c == 'f'
        },
        JsonVal::Int(_) => c == '-' || is_digit(c),
        JsonVal::Str(_) => c == '"',
        JsonVal::Arr(_) => c == '[',
        JsonVal::Obj(_) => c == '{',
    }
}

/// Necessary shape of any accepted document: after its leading
/// whitespace the text opens the returned value, and the three literal
/// values appear in full. A text without this shape is rejected.
pub open spec fn accepted_shape(t: Seq<char>, v: JsonVal) -> bool {
    exists|k: int|
        0 <= k < t.len() && (forall|q: int| 0 <= q < k ==> is_ws(#[trigger] t[q])) && #[trigger]
        opens(t[k], v) && (v is Null ==> k + 4 <= t.len() && t.subrange(k, k + 4) == seq![
            'n',
            'u',
            'l',
            'l',
        ]) && (v == JsonVal::Bool(true) ==> k + 4 <= t.len() && t.subrange(k, k + 4) == seq![
            't',
            'r',
            'u',
            'e',
        ]) && (v == JsonVal::Bool(false) ==> k + 5 <= t.len() && t.subrange(k, k + 5) == seq![
            'f',
            'a',
            'l',
            's',
            'e',
        ])
}

/// No value's text begins with whitespace.
proof fn lemma_opener_not_ws(v: JsonVal)
    ensures
        ser(v).len() >= 1,
        !is_ws(ser(v)[0]),
{
    lemma_ser_shape(v);
}

/// Parse one of the three literal values `null`, `true`, `false`,
/// starting exactly at `pos` on one of their opening characters.
#[verifier::rlimit(100)]
fn parse_literals(s: &str, n: usize, pos: usize) -> (r: Option<(Json, usize)>)
    requires
        n == s@.len(),
        pos < n,
        s@[pos as int] == 'n' || s@[pos as int] == 't' || s@[pos as int] == 'f',
    ensures
        match r {
            Option::Some((j, q)) => pos < q <= n && wf(j@),
            Option::None => true,
        },
        forall|v: JsonVal, rest: Seq<char>| #[trigger]
            value_hyp(s@, pos as int, v, rest) ==> json_ok(r, v, pos + ser(v).len()),
        match r {
            Option::Some((j, q)) => opens(s@[pos as int], j@) && (j@ is Null ==> q == pos + 4
                && s@.subrange(pos as int, pos + 4) == seq!['n', 'u', 'l', 'l']) && (j@
                == JsonVal::Bool(true) ==> q == pos + 4 && s@.subrange(pos as int, pos + 4)
                == seq!['t', 'r', 'u', 'e']) && (j@ == JsonVal::Bool(false) ==> q == pos + 5
                && s@.subrange(pos as int, pos + 5) == seq!['f', 'a', 'l', 's', 'e']),
            Option::None => true,
        },
{
    let c = s.get_char(pos);
    if c == 'n' {
        if n - pos >= 4 && s.get_char(pos + 1) == 'u' && s.get_char(pos + 2) == 'l'
            && s.get_char(pos + 3) == 'l' {
            proof {
                assert forall|v: JsonVal, rest: Seq<char>| #[trigger]
                    value_hyp(s@, pos as int, v, rest) implies v == JsonVal::Null && 4 == ser(
                    v,
                ).len() by {
                    lemma_value_at(s@, pos as int, v, rest);
                    lemma_ser_shape(v);
                }
                assert(s@.subrange(pos as int, pos + 4) =~= seq!['n', 'u', 'l', 'l']);
            }
            Some((Json::Null, pos + 4))
        } else {
            proof {
                assert forall|v: JsonVal, rest: Seq<char>| #[trigger]
                    value_hyp(s@, pos as int, v, rest) implies false by {
                    lemma_value_at(s@, pos as int, v, rest);
                    lemma_ser_shape(v);
                    assert(v is Null);
                    assert(pos + 4 <= n);
                    assert(s@[pos + 1] == 'u' && s@[pos + 2] == 'l' && s@[pos + 3] == 'l');
                }
            }
            None
        }
    } else if c == 't' {
        if n - pos >= 4 && s.get_char(pos + 1) == 'r' && s.get_char(pos + 2) == 'u'
            && s.get_char(pos + 3) == 'e' {
            proof {
                assert forall|v: JsonVal, rest: Seq<char>| #[trigger]
                    value_hyp(s@, pos as int, v, rest) implies v == JsonVal::Bool(true) && 4
                    == ser(v).len() by {
                    lemma_value_at(s@, pos as int, v, rest);
                    lemma_ser_shape(v);
                }
                assert(s@.subrange(pos as int, pos + 4) =~= seq!['t', 'r', 'u', 'e']);
            }
            Some((Json::Bool(true), pos + 4))
        } else {
            proof {
                assert forall|v: JsonVal, rest: Seq<char>| #[trigger]
                    value_hyp(s@, pos as int, v, rest) implies false by {
                    lemma_value_at(s@, pos as int, v, rest);
                    lemma_ser_shape(v);
                    assert(v == JsonVal::Bool(true));
                    assert(pos + 4 <= n);
                    assert(s@[pos + 1] == 'r' && s@[pos + 2] == 'u' && s@[pos + 3] == 'e');
                }
            }
            None
        }
    } else if c == 'f' {
        if n - pos >= 5 && s.get_char(pos + 1) == 'a' && s.get_char(pos + 2) == 'l'
            && s.get_char(pos + 3) == 's' && s.get_char(pos + 4) == 'e' {
            proof {
                assert forall|v: JsonVal, rest: Seq<char>| #[trigger]
                    value_hyp(s@, pos as int, v, rest) implies v == JsonVal::Bool(false) && 5
                    == ser(v).len() by {
                    lemma_value_at(s@, pos as int, v, rest);
                    lemma_ser_shape(v);
                }
                assert(s@.subrange(pos as int, pos + 5) =~= seq!['f', 'a', 'l', 's', 'e']);
            }
            Some((Json::Bool(false), pos + 5))
        } else {
            proof {
                assert forall|v: JsonVal, rest: Seq<char>| #[trigger]
                    value_hyp(s@, pos as int, v, rest) implies false by {
                    lemma_value_at(s@, pos as int, v, rest);
                    lemma_ser_shape(v);
                    assert(v == JsonVal::Bool(false));
                    assert(pos + 5 <= n);
                    assert(s@[pos + 1] == 'a' && s@[pos + 2] == 'l' && s@[pos + 3] == 's' && s@[pos
                        + 4] == 'e');
                }
            }
            None
        }
    } else {
        // unreachable: the caller dispatched on the opening character
        None
    }
}

/// Parse one JSON value starting exactly at `pos`. On the canonical text
/// of any well-formed value followed by a non-digit it returns exactly
/// that value; whatever it returns is well formed, opens with a
/// character fitting its constructor, and — for the literal values —
/// spells the literal out in full.
#[verifier::rlimit(100)]
fn parse_value(s: &str, n: usize, pos: usize) -> (r: Option<(Json, usize)>)
    requires
        n == s@.len(),
        pos <= n,
    ensures
        match r {
            Option::Some((j, q)) => pos < q <= n && wf(j@),
            Option::None => true,
        },
        forall|v: JsonVal, rest: Seq<char>| #[trigger]
            value_hyp(s@, pos as int, v, rest) ==> json_ok(r, v, pos + ser(v).len()),
        match r {
            Option::Some((j, q)) => opens(s@[pos as int], j@) && (j@ is Null ==> q == pos + 4
                && s@.subrange(pos as int, pos + 4) == seq!['n', 'u', 'l', 'l']) && (j@
                == JsonVal::Bool(true) ==> q == pos + 4 && s@.subrange(pos as int, pos + 4)
                == seq!['t', 'r', 'u', 'e']) && (j@ == JsonVal::Bool(false) ==> q == pos + 5
                && s@.subrange(pos as int, pos + 5) == seq!['f', 'a', 'l', 's', 'e']),
            Option::None => true,
        },
    decreases n - pos, 0int,
{
    if pos >= n {
        proof {
            assert forall|v: JsonVal, rest: Seq<char>| #[trigger]
                value_hyp(s@, pos as int, v, rest) implies false by {
                lemma_value_at(s@, pos as int, v, rest);
            }
        }
        return None;
    }
    let c = s.get_char(pos);
    if c == 'n' || c == 't' || c == 'f' {
        parse_literals(s, n, pos)
    } else if c == '"' {
        let parsed = parse_str_body(s, n, pos + 1);
        match parsed {
            Some((cs, q)) => {
                let st = chars_to_string(&cs);
                proof {
                    assert forall|v: JsonVal, rest: Seq<char>| #[trigger]
                        value_hyp(s@, pos as int, v, rest) implies v == JsonVal::Str(cs@) && q
                        == pos + ser(v).len() by {
                        lemma_value_at(s@, pos as int, v, rest);
                        lemma_ser_shape(v);
                        assert(v is Str);
                        let t = v->Str_0;
                        lemma_skip_shift(s@, pos as int, 1);
                        assert(s@.skip(pos as int).skip(1) =~= escape(t) + seq!['"'] + rest);
                        assert(str_hyp(s@, pos + 1 as int, t, rest));
                        assert(str_ok(parsed, t, pos + 1 + escape(t).len() + 1));
                        assert(ser(v).len() == escape(t).len() + 2);
                    }
                }
                Some((Json::Str(st), q))
            },
            None => {
                proof {
                    assert forall|v: JsonVal, rest: Seq<char>| #[trigger]
                        value_hyp(s@, pos as int, v, rest) implies false by {
                        lemma_value_at(s@, pos as int, v, rest);
                        lemma_ser_shape(v);
                        assert(v is Str);
                        let t = v->Str_0;
                        lemma_skip_shift(s@, pos as int, 1);
                        assert(s@.skip(pos as int).skip(1) =~= escape(t) + seq!['"'] + rest);
                        assert(str_hyp(s@, pos + 1 as int, t, rest));
                    }
                }
                None
            },
        }
    } else if c == '-' || is_digit_exec(c) {
        let parsed = parse_int_at(s, n, pos);
        match parsed {
            Some((i, q)) => {
                proof {
                    assert forall|v: JsonVal, rest: Seq<char>| #[trigger]
                        value_hyp(s@, pos as int, v, rest) implies v == JsonVal::Int(i as int) && q
                        == pos + ser(v).len() by {
                        lemma_value_at(s@, pos as int, v, rest);
                        lemma_ser_shape(v);
                        assert(v is Int);
                        let iv = v->Int_0;
                        assert(ser(v) == ser_int(iv));
                        assert(int_hyp(s@, pos as int, iv, rest));
                        assert(int_ok(parsed, iv, pos + ser_int(iv).len()));
                    }
                }
                Some((Json::Int(i), q))
            },
            None => {
                proof {
                    assert forall|v: JsonVal, rest: Seq<char>| #[trigger]
                        value_hyp(s@, pos as int, v, rest) implies false by {
                        lemma_value_at(s@, pos as int, v, rest);
                        lemma_ser_shape(v);
                        assert(v is Int);
                        let iv = v->Int_0;
                        assert(ser(v) == ser_int(iv));
                        assert(int_hyp(s@, pos as int, iv, rest));
                    }
                }
                None
            },
        }
    } else if c == '[' {
        let parsed = parse_arr_tail(s, n, pos + 1);
        match parsed {
            Some((vec, q)) => {
                let ghost vs = vec@;
                let jv = Json::Arr(vec);
                proof {
                    assert(json_view(jv)->Arr_0 =~= views_of(vs));
                    assert(json_view(jv) == JsonVal::Arr(views_of(vs)));
                    assert forall|v: JsonVal, rest: Seq<char>| #[trigger]
                        value_hyp(s@, pos as int, v, rest) implies json_view(jv) == v && q == pos
                        + ser(v).len() by {
                        lemma_value_at(s@, pos as int, v, rest);
                        lemma_ser_shape(v);
                        assert(v is Arr);
                        let a = v->Arr_0;
                        lemma_skip_shift(s@, pos as int, 1);
                        assert(s@.skip(pos as int).skip(1) =~= ser_elems(a) + seq![']'] + rest);
                        assert(arr_hyp(s@, pos + 1 as int, a, rest));
                        assert(arr_ok(parsed, a, pos + 1 + ser_elems(a).len() + 1));
                        assert(ser(v).len() == ser_elems(a).len() + 2);
                    }
                }
                Some((jv, q))
            },
            None => {
                proof {
                    assert forall|v: JsonVal, rest: Seq<char>| #[trigger]
                        value_hyp(s@, pos as int, v, rest) implies false by {
                        lemma_value_at(s@, pos as int, v, rest);
                        lemma_ser_shape(v);
                        assert(v is Arr);
                        let a = v->Arr_0;
                        lemma_skip_shift(s@, pos as int, 1);
                        assert(s@.skip(pos as int).skip(1) =~= ser_elems(a) + seq![']'] + rest);
                        assert(arr_hyp(s@, pos + 1 as int, a, rest));
                    }
                }
                None
            },
        }
    } else if c == '{' {
        let parsed = parse_obj_tail(s, n, pos + 1);
        match parsed {
            Some((vec, q)) => {
                let ghost vs = vec@;
                let jv = Json::Obj(vec);
                proof {
                    assert(json_view(jv)->Obj_0 =~= member_views_of(vs));
                    assert(json_view(jv) == JsonVal::Obj(member_views_of(vs)));
                    assert forall|v: JsonVal, rest: Seq<char>| #[trigger]
                        value_hyp(s@, pos as int, v, rest) implies json_view(jv) == v && q == pos
                        + ser(v).len() by {
                        lemma_value_at(s@, pos as int, v, rest);
                        lemma_ser_shape(v);
                        assert(v is Obj);
                        let m = v->Obj_0;
                        lemma_skip_shift(s@, pos as int, 1);
                        assert(s@.skip(pos as int).skip(1) =~= ser_members(m) + seq!['}'] + rest);
                        assert(obj_hyp(s@, pos + 1 as int, m, rest));
                        assert(obj_ok(parsed, m, pos + 1 + ser_members(m).len() + 1));
                        assert(ser(v).len() == ser_members(m).len() + 2);
                    }
                }
                Some((jv, q))
            },
            None => {
                proof {
                    assert forall|v: JsonVal, rest: Seq<char>| #[trigger]
                        value_hyp(s@, pos as int, v, rest) implies false by {
                        lemma_value_at(s@, pos as int, v, rest);
                        lemma_ser_shape(v);
                        assert(v is Obj);
                        let m = v->Obj_0;
                        lemma_skip_shift(s@, pos as int, 1);
                        assert(s@.skip(pos as int).skip(1) =~= ser_members(m) + seq!['}'] + rest);
                        assert(obj_hyp(s@, pos + 1 as int, m, rest));
                    }
                }
                None
            },
        }
    } else {
        proof {
            assert forall|v: JsonVal, rest: Seq<char>| #[trigger]
                value_hyp(s@, pos as int, v, rest) implies false by {
                lemma_value_at(s@, pos as int, v, rest);
                lemma_ser_shape(v);
            }
        }
        None
    }
}

/// Parse the remainder of an array, starting just after `[`; returns the
/// elements and the position just after `]`.
#[verifier::rlimit(100)]
fn parse_arr_tail(s: &str, n: usize, pos1: usize) -> (r: Option<(Vec<Json>, usize)>)
    requires
        n == s@.len(),
        pos1 <= n,
    ensures
        match r {
            Option::Some((vec, q)) => pos1 < q <= n && wf(JsonVal::Arr(views_of(vec@))),
            Option::None => true,
        },
        forall|a: Seq<JsonVal>, rest: Seq<char>| #[trigger]
            arr_hyp(s@, pos1 as int, a, rest) ==> arr_ok(r, a, pos1 + ser_elems(a).len() + 1),
    decreases n - pos1, 1int,
{
    let start = skip_ws(s, n, pos1);
    if start >= n {
        proof {
            assert forall|a: Seq<JsonVal>, rest: Seq<char>| #[trigger]
                arr_hyp(s@, pos1 as int, a, rest) implies false by {
                lemma_arr_entry(s@, pos1 as int, a, rest, start as int);
            }
        }
        return None;
    }
    let c = s.get_char(start);
    if c == ']' {
        let vec: Vec<Json> = Vec::new();
        proof {
            assert(views_of(vec@) =~= Seq::<JsonVal>::empty());
            assert forall|a: Seq<JsonVal>, rest: Seq<char>| #[trigger]
                arr_hyp(s@, pos1 as int, a, rest) implies views_of(vec@) == a && start + 1 == pos1
                + ser_elems(a).len() + 1 by {
                lemma_arr_entry(s@, pos1 as int, a, rest, start as int);
                if a.len() > 0 {
                    assert(s@[start as int] != ']');
                }
                assert(a =~= Seq::<JsonVal>::empty());
            }
        }
        return Some((vec, start + 1));
    }
    let mut vec: Vec<Json> = Vec::new();
    let mut cur = start;
    proof {
        assert(views_of(vec@) =~= Seq::<JsonVal>::empty());
        assert forall|a: Seq<JsonVal>, rest: Seq<char>| #[trigger]
            arr_hyp(s@, pos1 as int, a, rest) implies 0 < a.len() && views_of(vec@) == a.take(0)
            && s@.skip(cur as int) == ser_elems(a.skip(0)) + seq![']'] + rest by {
            lemma_arr_entry(s@, pos1 as int, a, rest, start as int);
            if a.len() == 0 {
                assert(s@[start as int] == ']');
            }
            assert(views_of(vec@) =~= a.take(0));
            assert(a.skip(0) =~= a);
        }
    }
    loop
        invariant
            n == s@.len(),
            pos1 <= cur <= n,
            wf(JsonVal::Arr(views_of(vec@))),
            forall|a: Seq<JsonVal>, rest: Seq<char>| #[trigger]
                arr_hyp(s@, pos1 as int, a, rest) ==> vec@.len() < a.len() && views_of(vec@)
                    == a.take(vec@.len() as int) && s@.skip(cur as int) == ser_elems(
                    a.skip(vec@.len() as int),
                ) + seq![']'] + rest,
        decreases n - cur,
    {
        let ghost vec0 = vec@;
        let ghost cur0 = cur as int;
        let parsed = parse_value(s, n, cur);
        match parsed {
            None => {
                proof {
                    assert forall|a: Seq<JsonVal>, rest: Seq<char>| #[trigger]
                        arr_hyp(s@, pos1 as int, a, rest) implies false by {
                        lemma_arr_elem_hyp(s@, pos1 as int, a, rest, vec0.len() as int, cur0);
                    }
                }
                return None;
            },
            Some((elem, cur2)) => {
                proof {
                    assert forall|a: Seq<JsonVal>, rest: Seq<char>| #[trigger]
                        arr_hyp(s@, pos1 as int, a, rest) implies json_view(elem) == a[vec0.len() as int]
                        && cur2 == cur0 + ser(a[vec0.len() as int]).len() by {
                        lemma_arr_elem_hyp(s@, pos1 as int, a, rest, vec0.len() as int, cur0);
                    }
                }
                vec.push(elem);
                let cur3 = skip_ws(s, n, cur2);
                proof {
                    assert(views_of(vec@) =~= views_of(vec0).push(json_view(elem)));
                    lemma_wf_list(views_of(vec0));
                    lemma_wf_list(views_of(vec@));
                    assert forall|i: int| 0 <= i < views_of(vec@).len() implies wf(
                        #[trigger] views_of(vec@)[i],
                    ) by {
                        if i < vec0.len() {
                            assert(views_of(vec@)[i] == views_of(vec0)[i]);
                        } else {
                            assert(views_of(vec@)[i] == json_view(elem));
                        }
                    }
                    assert(wf(JsonVal::Arr(views_of(vec@))));
                }
                if cur3 >= n {
                    proof {
                        assert forall|a: Seq<JsonVal>, rest: Seq<char>| #[trigger]
                            arr_hyp(s@, pos1 as int, a, rest) implies false by {
                            lemma_arr_after_elem(
                                s@,
                                pos1 as int,
                                a,
                                rest,
                                vec0.len() as int,
                                cur0,
                                cur2 as int,
                                cur3 as int,
                            );
                        }
                    }
                    return None;
                }
                let c2 = s.get_char(cur3);
                if c2 == ',' {
                    let next = skip_ws(s, n, cur3 + 1);
                    proof {
                        assert forall|a: Seq<JsonVal>, rest: Seq<char>| #[trigger]
                            arr_hyp(s@, pos1 as int, a, rest) implies vec@.len() < a.len()
                            && views_of(vec@) == a.take(vec@.len() as int) && s@.skip(next as int)
                            == ser_elems(a.skip(vec@.len() as int)) + seq![']'] + rest by {
                            lemma_arr_after_elem(
                                s@,
                                pos1 as int,
                                a,
                                rest,
                                vec0.len() as int,
                                cur0,
                                cur2 as int,
                                cur3 as int,
                            );
                            let k = vec0.len() as int;
                            if k + 1 == a.len() {
                                assert(s@[cur3 as int] == ']');
                            }
                            assert(views_of(vec@) =~= a.take(k + 1));
                            // the element after the comma starts with a non-blank
                            lemma_arr_next_elem(s@, pos1 as int, a, rest, k + 1, cur3 + 1);
                            assert(next == cur3 + 1);
                        }
                    }
                    cur = next;
                } else if c2 == ']' {
                    proof {
                        assert forall|a: Seq<JsonVal>, rest: Seq<char>| #[trigger]
                            arr_hyp(s@, pos1 as int, a, rest) implies views_of(vec@) == a && cur3
                            + 1 == pos1 + ser_elems(a).len() + 1 by {
                            lemma_arr_after_elem(
                                s@,
                                pos1 as int,
                                a,
                                rest,
                                vec0.len() as int,
                                cur0,
                                cur2 as int,
                                cur3 as int,
                            );
                            let k = vec0.len() as int;
                            if k + 1 < a.len() {
                                assert(s@[cur3 as int] == ',');
                            }
                            assert(views_of(vec@) =~= a.take(k + 1));
                            assert(a.take(k + 1) =~= a);
                        }
                    }
                    return Some((vec, cur3 + 1));
                } else {
                    proof {
                        assert forall|a: Seq<JsonVal>, rest: Seq<char>| #[trigger]
                            arr_hyp(s@, pos1 as int, a, rest) implies false by {
                            lemma_arr_after_elem(
                                s@,
                                pos1 as int,
                                a,
                                rest,
                                vec0.len() as int,
                                cur0,
                                cur2 as int,
                                cur3 as int,
                            );
                        }
                    }
                    return None;
                }
            },
        }
    }
}

/// Parse the remainder of an object, starting just after `{`; returns
/// the members and the position just after `}`.
#[verifier::rlimit(100)]
fn parse_obj_tail(s: &str, n: usize, pos1: usize) -> (r: Option<(Vec<(String, Json)>, usize)>)
    requires
        n == s@.len(),
        pos1 <= n,
    ensures
        match r {
            Option::Some((vec, q)) => pos1 < q <= n && wf(JsonVal::Obj(member_views_of(vec@))),
            Option::None => true,
        },
        forall|m: Seq<(Seq<char>, JsonVal)>, rest: Seq<char>| #[trigger]
            obj_hyp(s@, pos1 as int, m, rest) ==> obj_ok(r, m, pos1 + ser_members(m).len() + 1),
    decreases n - pos1, 1int,
{
    let start = skip_ws(s, n, pos1);
    if start >= n {
        proof {
            assert forall|m: Seq<(Seq<char>, JsonVal)>, rest: Seq<char>| #[trigger]
                obj_hyp(s@, pos1 as int, m, rest) implies false by {
                lemma_obj_entry(s@, pos1 as int, m, rest, start as int);
            }
        }
        return None;
    }
    let c = s.get_char(start);
    if c == '}' {
        let vec: Vec<(String, Json)> = Vec::new();
        proof {
            assert(member_views_of(vec@) =~= Seq::<(Seq<char>, JsonVal)>::empty());
            assert forall|m: Seq<(Seq<char>, JsonVal)>, rest: Seq<char>| #[trigger]
                obj_hyp(s@, pos1 as int, m, rest) implies member_views_of(vec@) == m && start + 1
                == pos1 + ser_members(m).len() + 1 by {
                lemma_obj_entry(s@, pos1 as int, m, rest, start as int);
                if m.len() > 0 {
                    assert(s@[start as int] == '"');
                }
                assert(m =~= Seq::<(Seq<char>, JsonVal)>::empty());
            }
        }
        return Some((vec, start + 1));
    }
    let mut vec: Vec<(String, Json)> = Vec::new();
    let mut cur = start;
    proof {
        assert(member_views_of(vec@) =~= Seq::<(Seq<char>, JsonVal)>::empty());
        assert forall|m: Seq<(Seq<char>, JsonVal)>, rest: Seq<char>| #[trigger]
            obj_hyp(s@, pos1 as int, m, rest) implies 0 < m.len() && member_views_of(vec@)
            == m.take(0) && s@.skip(cur as int) == ser_members(m.skip(0)) + seq!['}'] + rest by {
            lemma_obj_entry(s@, pos1 as int, m, rest, start as int);
            if m.len() == 0 {
                assert(s@[start as int] == '}');
            }
            assert(member_views_of(vec@) =~= m.take(0));
        }
    }
    loop
        invariant
            n == s@.len(),
            pos1 <= cur <= n,
            wf(JsonVal::Obj(member_views_of(vec@))),
            forall|m: Seq<(Seq<char>, JsonVal)>, rest: Seq<char>| #[trigger]
                obj_hyp(s@, pos1 as int, m, rest) ==> vec@.len() < m.len() && member_views_of(
                    vec@,
                ) == m.take(vec@.len() as int) && s@.skip(cur as int) == ser_members(
                    m.skip(vec@.len() as int),
                ) + seq!['}'] + rest,
        decreases n - cur,
    {
        let ghost vec0 = vec@;
        let ghost cur0 = cur as int;
        if cur >= n {
            proof {
                assert forall|m: Seq<(Seq<char>, JsonVal)>, rest: Seq<char>| #[trigger]
                    obj_hyp(s@, pos1 as int, m, rest) implies false by {
                    lemma_obj_member_hyp(s@, pos1 as int, m, rest, vec0.len() as int, cur0);
                }
            }
            return None;
        }
        if s.get_char(cur) != '"' {
            proof {
                assert forall|m: Seq<(Seq<char>, JsonVal)>, rest: Seq<char>| #[trigger]
                    obj_hyp(s@, pos1 as int, m, rest) implies false by {
                    lemma_obj_member_hyp(s@, pos1 as int, m, rest, vec0.len() as int, cur0);
                }
            }
            return None;
        }
        let kparsed = parse_str_body(s, n, cur + 1);
        match kparsed {
            None => {
                proof {
                    assert forall|m: Seq<(Seq<char>, JsonVal)>, rest: Seq<char>| #[trigger]
                        obj_hyp(s@, pos1 as int, m, rest) implies false by {
                        lemma_obj_member_hyp(s@, pos1 as int, m, rest, vec0.len() as int, cur0);
                    }
                }
                return None;
            },
            Some((kcs, q1)) => {
                proof {
                    assert forall|m: Seq<(Seq<char>, JsonVal)>, rest: Seq<char>| #[trigger]
                        obj_hyp(s@, pos1 as int, m, rest) implies kcs@ == m[vec0.len() as int].0
                        && q1 == cur0 + 2 + escape(m[vec0.len() as int].0).len() by {
                        lemma_obj_member_hyp(s@, pos1 as int, m, rest, vec0.len() as int, cur0);
                    }
                }
                let key = chars_to_string(&kcs);
                let cur3 = skip_ws(s, n, q1);
                if cur3 >= n {
                    proof {
                        assert forall|m: Seq<(Seq<char>, JsonVal)>, rest: Seq<char>| #[trigger]
                            obj_hyp(s@, pos1 as int, m, rest) implies false by {
                            lemma_obj_member_hyp(s@, pos1 as int, m, rest, vec0.len() as int, cur0);
                            assert(!is_ws(':'));
                        }
                    }
                    return None;
                }
                if s.get_char(cur3) != ':' {
                    proof {
                        assert forall|m: Seq<(Seq<char>, JsonVal)>, rest: Seq<char>| #[trigger]
                            obj_hyp(s@, pos1 as int, m, rest) implies false by {
                            lemma_obj_member_hyp(s@, pos1 as int, m, rest, vec0.len() as int, cur0);
                            assert(!is_ws(':'));
                        }
                    }
                    return None;
                }
                let cur4 = skip_ws(s, n, cur3 + 1);
                let vparsed = parse_value(s, n, cur4);
                match vparsed {
                    None => {
                        proof {
                            assert forall|m: Seq<(Seq<char>, JsonVal)>, rest: Seq<char>| #[trigger]
                                obj_hyp(s@, pos1 as int, m, rest) implies false by {
                                lemma_obj_member_hyp(
                                    s@,
                                    pos1 as int,
                                    m,
                                    rest,
                                    vec0.len() as int,
                                    cur0,
                                );
                                assert(!is_ws(':'));
                            }
                        }
                        return None;
                    },
                    Some((val, q2)) => {
                        proof {
                            assert forall|m: Seq<(Seq<char>, JsonVal)>, rest: Seq<char>| #[trigger]
                                obj_hyp(s@, pos1 as int, m, rest) implies json_view(val)
                                == m[vec0.len() as int].1 && q2 == cur4 + ser(
                                m[vec0.len() as int].1,
                            ).len() && cur4 == cur0 + 3 + escape(m[vec0.len() as int].0).len() by {
                                lemma_obj_member_hyp(
                                    s@,
                                    pos1 as int,
                                    m,
                                    rest,
                                    vec0.len() as int,
                                    cur0,
                                );
                                assert(!is_ws(':'));
                            }
                        }
                        vec.push((key, val));
                        proof {
                            assert(member_views_of(vec@) =~= member_views_of(vec0).push(
                                (key@, json_view(val)),
                            ));
                            lemma_wf_member_list(member_views_of(vec0));
                            lemma_wf_member_list(member_views_of(vec@));
                            assert forall|i: int| 0 <= i < member_views_of(vec@).len() implies
                                wf_str((#[trigger] member_views_of(vec@)[i]).0) && wf(
                                member_views_of(vec@)[i].1,
                            ) by {
                                if i < vec0.len() {
                                    assert(member_views_of(vec@)[i] == member_views_of(vec0)[i]);
                                } else {
                                    assert(member_views_of(vec@)[i] == (key@, json_view(val)));
                                }
                            }
                            assert(wf(JsonVal::Obj(member_views_of(vec@))));
                        }
                        let cur5 = skip_ws(s, n, q2);
                        if cur5 >= n {
                            proof {
                                assert forall|m: Seq<(Seq<char>, JsonVal)>, rest: Seq<char>|
                                    #[trigger] obj_hyp(s@, pos1 as int, m, rest) implies false by {
                                    lemma_obj_member_hyp(
                                        s@,
                                        pos1 as int,
                                        m,
                                        rest,
                                        vec0.len() as int,
                                        cur0,
                                    );
                                    assert(!is_ws(':'));
                                    lemma_obj_after_value(
                                        s@,
                                        pos1 as int,
                                        m,
                                        rest,
                                        vec0.len() as int,
                                        cur4 as int,
                                        q2 as int,
                                        cur5 as int,
                                    );
                                }
                            }
                            return None;
                        }
                        let c2 = s.get_char(cur5);
                        if c2 == ',' {
                            let next = skip_ws(s, n, cur5 + 1);
                            proof {
                                assert forall|m: Seq<(Seq<char>, JsonVal)>, rest: Seq<char>|
                                    #[trigger] obj_hyp(s@, pos1 as int, m, rest) implies vec@.len()
                                    < m.len() && member_views_of(vec@) == m.take(vec@.len() as int)
                                    && s@.skip(next as int) == ser_members(
                                    m.skip(vec@.len() as int),
                                ) + seq!['}'] + rest by {
                                    lemma_obj_member_hyp(
                                        s@,
                                        pos1 as int,
                                        m,
                                        rest,
                                        vec0.len() as int,
                                        cur0,
                                    );
                                    assert(!is_ws(':'));
                                    lemma_obj_after_value(
                                        s@,
                                        pos1 as int,
                                        m,
                                        rest,
                                        vec0.len() as int,
                                        cur4 as int,
                                        q2 as int,
                                        cur5 as int,
                                    );
                                    let k = vec0.len() as int;
                                    if k + 1 == m.len() {
                                        assert(s@[cur5 as int] == '}');
                                    }
                                    assert(member_views_of(vec@) =~= m.take(k + 1));
                                    lemma_obj_next_member(
                                        s@,
                                        pos1 as int,
                                        m,
                                        rest,
                                        k + 1,
                                        cur5 + 1,
                                    );
                                    assert(next == cur5 + 1);
                                }
                            }
                            cur = next;
                        } else if c2 == '}' {
                            proof {
                                assert forall|m: Seq<(Seq<char>, JsonVal)>, rest: Seq<char>|
                                    #[trigger] obj_hyp(s@, pos1 as int, m, rest) implies
                                    member_views_of(vec@) == m && cur5 + 1 == pos1 + ser_members(
                                    m,
                                ).len() + 1 by {
                                    lemma_obj_member_hyp(
                                        s@,
                                        pos1 as int,
                                        m,
                                        rest,
                                        vec0.len() as int,
                                        cur0,
                                    );
                                    assert(!is_ws(':'));
                                    lemma_obj_after_value(
                                        s@,
                                        pos1 as int,
                                        m,
                                        rest,
                                        vec0.len() as int,
                                        cur4 as int,
                                        q2 as int,
                                        cur5 as int,
                                    );
                                    let k = vec0.len() as int;
                                    if k + 1 < m.len() {
                                        assert(s@[cur5 as int] == ',');
                                    }
                                    assert(member_views_of(vec@) =~= m.take(k + 1));
                                    assert(m.take(k + 1) =~= m);
                                }
                            }
                            return Some((vec, cur5 + 1));
                        } else {
                            proof {
                                assert forall|m: Seq<(Seq<char>, JsonVal)>, rest: Seq<char>|
                                    #[trigger] obj_hyp(s@, pos1 as int, m, rest) implies false by {
                                    lemma_obj_member_hyp(
                                        s@,
                                        pos1 as int,
                                        m,
                                        rest,
                                        vec0.len() as int,
                                        cur0,
                                    );
                                    assert(!is_ws(':'));
                                    lemma_obj_after_value(
                                        s@,
                                        pos1 as int,
                                        m,
                                        rest,
                                        vec0.len() as int,
                                        cur4 as int,
                                        q2 as int,
                                        cur5 as int,
                                    );
                                }
                            }
                            return None;
                        }
                    },
                }
            },
        }
    }
}

/// Parse a complete JSON document: one value among insignificant
/// whitespace. On any text whose compact form is the canonical text of a
/// well-formed value — pretty-printed documents included — it returns
/// exactly that value; whatever it returns is well formed and came from
/// a text of the accepted shape.
#[verifier::rlimit(50)]
pub fn parse_json(s: &str) -> (r: Option<Json>)
    ensures
        match r {
            Option::Some(j) => wf(j@) && accepted_shape(compact(s@), j@),
            Option::None => true,
        },
        forall|v: JsonVal| wf(v) && s@ == #[trigger] ser(v) ==> match r {
            Option::Some(j) => j@ == v,
            Option::None => false,
        },
        forall|v: JsonVal| wf(v) && compact(s@) == #[trigger] ser(v) ==> match r {
            Option::Some(j) => j@ == v,
            Option::None => false,
        },
{
    let cs = compact_chars(s);
    let st = chars_to_string(&cs);
    let s2 = st.as_str();
    proof {
        assert(s2@ == compact(s@));
    }
    let n = s2.unicode_len();
    let start = skip_ws(s2, n, 0);
    proof {
        assert forall|v: JsonVal| wf(v) && compact(s@) == #[trigger] ser(v) implies value_hyp(
            s2@,
            0,
            v,
            Seq::<char>::empty(),
        ) && start == 0 by {
            lemma_ser_shape(v);
            assert(s2@.skip(0) =~= ser(v) + Seq::<char>::empty());
            if start > 0 {
                assert(is_ws(s2@[0]));
                assert(s2@[0] == ser(v)[0]);
                lemma_opener_not_ws(v);
                assert(false);
            }
        }
        assert forall|v: JsonVal| wf(v) && s@ == #[trigger] ser(v) implies compact(s@) == ser(
            v,
        ) by {
            lemma_compact_canonical(v);
        }
    }
    let parsed = parse_value(s2, n, start);
    match parsed {
        None => {
            proof {
                assert forall|v: JsonVal| wf(v) && compact(s@) == #[trigger] ser(v) implies
                    false by {
                    assert(value_hyp(s2@, 0, v, Seq::<char>::empty()));
                    assert(json_ok(parsed, v, 0int + ser(v).len()));
                }
            }
            None
        },
        Some((j, q)) => {
            let e = skip_ws(s2, n, q);
            if e == n {
                proof {
                    assert forall|v: JsonVal| wf(v) && compact(s@) == #[trigger] ser(v) implies j@
                        == v by {
                        assert(value_hyp(s2@, 0, v, Seq::<char>::empty()));
                        assert(json_ok(parsed, v, 0int + ser(v).len()));
                    }
                    assert(start < n && opens(s2@[start as int], j@));
                    assert(accepted_shape(compact(s@), j@));
                }
                Some(j)
            } else {
                proof {
                    assert forall|v: JsonVal| wf(v) && compact(s@) == #[trigger] ser(v) implies
                        false by {
                        assert(value_hyp(s2@, 0, v, Seq::<char>::empty()));
                        assert(json_ok(parsed, v, 0int + ser(v).len()));
                        assert(q == ser(v).len());
                        assert(e > q);
                        assert(is_ws(s2@[q as int]));
                    }
                }
                None
            }
        },
    }
}

} // verus!
