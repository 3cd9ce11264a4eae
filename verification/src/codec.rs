//! The persistence format: an ordered account listing rendered as a compact
//! JSON array of objects with the fields `user_id`, `email`, `username` and
//! `password`, in that order. `ser_accounts` is the format's definition on
//! the serializing side, `p_doc` on the parsing side, and
//! `lemma_save_load_round_trip` proves that parsing a serialized listing
//! yields the listing back.

use vstd::prelude::*;
use crate::json::Account;
use crate::json::AccountV;

verus! {

// ---------------------------------------------------------------------------
// The serialized form.
// ---------------------------------------------------------------------------

/// How one character appears inside a quoted string: quotes and backslashes
/// are preceded by a backslash, every other character stands as itself.
pub open spec fn esc_char(c: char) -> Seq<char> {
    if c == '"' {
        seq!['\\', '"']
    } else if c == '\\' {
        seq!['\\', '\\']
    } else {
        seq![c]
    }
}

/// A whole string with its escapes, without the surrounding quotes.
pub open spec fn esc(s: Seq<char>) -> Seq<char>
    decreases s.len(),
{
    if s.len() == 0 {
        Seq::empty()
    } else {
        esc_char(s[0]) + esc(s.drop_first())
    }
}

/// A quoted, escaped string.
pub open spec fn quoted(s: Seq<char>) -> Seq<char> {
    seq!['"'] + esc(s) + seq!['"']
}

pub open spec fn digit_char(d: int) -> char {
    if d == 0 {
        '0'
    } else if d == 1 {
        '1'
    } else if d == 2 {
        '2'
    } else if d == 3 {
        '3'
    } else if d == 4 {
        '4'
    } else if d == 5 {
        '5'
    } else if d == 6 {
        '6'
    } else if d == 7 {
        '7'
    } else if d == 8 {
        '8'
    } else {
        '9'
    }
}

/// The canonical decimal rendering of a number: no sign, no leading zero.
pub open spec fn dec_digits(n: nat) -> Seq<char>
    decreases n,
{
    if n < 10 {
        seq![digit_char(n as int)]
    } else {
        dec_digits(n / 10) + seq![digit_char((n % 10) as int)]
    }
}

pub open spec fn lit_user_id() -> Seq<char> {
    seq!['{', '"', 'u', 's', 'e', 'r', '_', 'i', 'd', '"', ':']
}

pub open spec fn lit_email() -> Seq<char> {
    seq![',', '"', 'e', 'm', 'a', 'i', 'l', '"', ':']
}

pub open spec fn lit_username() -> Seq<char> {
    seq![',', '"', 'u', 's', 'e', 'r', 'n', 'a', 'm', 'e', '"', ':']
}

pub open spec fn lit_password() -> Seq<char> {
    seq![',', '"', 'p', 'a', 's', 's', 'w', 'o', 'r', 'd', '"', ':']
}

pub open spec fn lit_null() -> Seq<char> {
    seq!['n', 'u', 'l', 'l']
}

/// An optional identifier: its decimal digits, or `null`.
pub open spec fn ser_opt_id(v: Option<u32>) -> Seq<char> {
    match v {
        Some(n) => dec_digits(n as nat),
        None => lit_null(),
    }
}

/// An optional string: quoted and escaped, or `null`.
pub open spec fn ser_opt_str(v: Option<Seq<char>>) -> Seq<char> {
    match v {
        Some(s) => quoted(s),
        None => lit_null(),
    }
}

/// One record, as an object with its four fields in fixed order.
pub open spec fn ser_account(a: AccountV) -> Seq<char> {
    lit_user_id() + ser_opt_id(a.user_id) + lit_email() + ser_opt_str(a.email) + lit_username()
        + quoted(a.username) + lit_password() + quoted(a.password) + seq!['}']
}

/// Everything after the first record: each further record behind a comma,
/// then the closing bracket.
pub open spec fn ser_tail(m: Seq<AccountV>) -> Seq<char>
    decreases m.len(),
{
    if m.len() == 0 {
        seq![']']
    } else {
        seq![','] + ser_account(m[0]) + ser_tail(m.drop_first())
    }
}

/// A whole listing: the records in order inside square brackets.
pub open spec fn ser_accounts(m: Seq<AccountV>) -> Seq<char> {
    if m.len() == 0 {
        seq!['[', ']']
    } else {
        seq!['['] + ser_account(m[0]) + ser_tail(m.drop_first())
    }
}

// ---------------------------------------------------------------------------
// The parsed form. Each parser consumes a prefix of its input and returns
// the value read together with the remaining input, or nothing where the
// input does not start with the expected shape.
// ---------------------------------------------------------------------------

pub open spec fn is_digit(c: char) -> bool {
    '0' <= c && c <= '9'
}

pub open spec fn digit_val(c: char) -> int {
    c as int - '0' as int
}

/// A fixed piece of text.
pub open spec fn p_lit(s: Seq<char>, lit: Seq<char>) -> Option<Seq<char>> {
    if lit.len() <= s.len() && s.take(lit.len() as int) == lit {
        Some(s.skip(lit.len() as int))
    } else {
        None
    }
}

/// The inside of a quoted string, up to and including the closing quote.
pub open spec fn p_string_body(s: Seq<char>) -> Option<(Seq<char>, Seq<char>)>
    decreases s.len(),
{
    if s.len() == 0 {
        None
    } else if s[0] == '"' {
        Some((Seq::empty(), s.drop_first()))
    } else if s[0] == '\\' {
        if s.len() >= 2 && (s[1] == '"' || s[1] == '\\') {
            match p_string_body(s.skip(2)) {
                Some((x, r)) => Some((seq![s[1]] + x, r)),
                None => None,
            }
        } else {
            None
        }
    } else {
        match p_string_body(s.drop_first()) {
            Some((x, r)) => Some((seq![s[0]] + x, r)),
            None => None,
        }
    }
}

/// A quoted string, opening quote included.
pub open spec fn p_str(s: Seq<char>) -> Option<(Seq<char>, Seq<char>)> {
    if s.len() > 0 && s[0] == '"' {
        p_string_body(s.drop_first())
    } else {
        None
    }
}

/// How many digits stand at the front of the input.
pub open spec fn digits_prefix_len(s: Seq<char>) -> int
    decreases s.len(),
{
    if s.len() > 0 && is_digit(s[0]) {
        1 + digits_prefix_len(s.drop_first())
    } else {
        0
    }
}

/// The number a digit sequence denotes.
pub open spec fn digits_val(ds: Seq<char>) -> int
    decreases ds.len(),
{
    if ds.len() == 0 {
        0
    } else {
        digits_val(ds.drop_last()) * 10 + digit_val(ds.last())
    }
}

/// A canonical decimal number that fits in `u32`: at least one digit, no
/// leading zero, no overflow.
pub open spec fn p_u32(s: Seq<char>) -> Option<(u32, Seq<char>)> {
    let k = digits_prefix_len(s);
    if k == 0 {
        None
    } else if s[0] == '0' && k > 1 {
        None
    } else if digits_val(s.take(k)) > u32::MAX {
        None
    } else {
        Some((digits_val(s.take(k)) as u32, s.skip(k)))
    }
}

/// An optional identifier: `null`, or a decimal number.
pub open spec fn p_opt_id(s: Seq<char>) -> Option<(Option<u32>, Seq<char>)> {
    match p_lit(s, lit_null()) {
        Some(r) => Some((None, r)),
        None => match p_u32(s) {
            Some((n, r)) => Some((Some(n), r)),
            None => None,
        },
    }
}

/// An optional string: a quoted string, or `null`.
pub open spec fn p_opt_str(s: Seq<char>) -> Option<(Option<Seq<char>>, Seq<char>)> {
    if s.len() > 0 && s[0] == '"' {
        match p_string_body(s.drop_first()) {
            Some((x, r)) => Some((Some(x), r)),
            None => None,
        }
    } else {
        match p_lit(s, lit_null()) {
            Some(r) => Some((None, r)),
            None => None,
        }
    }
}

/// One record: the four fields in fixed order inside braces.
pub open spec fn p_account(s: Seq<char>) -> Option<(AccountV, Seq<char>)> {
    match p_lit(s, lit_user_id()) {
        None => None,
        Some(r1) => match p_opt_id(r1) {
            None => None,
            Some((uid, r2)) => match p_lit(r2, lit_email()) {
                None => None,
                Some(r3) => match p_opt_str(r3) {
                    None => None,
                    Some((em, r4)) => match p_lit(r4, lit_username()) {
                        None => None,
                        Some(r5) => match p_str(r5) {
                            None => None,
                            Some((un, r6)) => match p_lit(r6, lit_password()) {
                                None => None,
                                Some(r7) => match p_str(r7) {
                                    None => None,
                                    Some((pw, r8)) => if r8.len() >= 1 && r8[0] == '}' {
                                        Some(
                                            (
                                                AccountV {
                                                    user_id: uid,
                                                    email: em,
                                                    username: un,
                                                    password: pw,
                                                },
                                                r8.drop_first(),
                                            ),
                                        )
                                    } else {
                                        None
                                    },
                                },
                            },
                        },
                    },
                },
            },
        },
    }
}

/// Everything after the first record: further records behind commas, then
/// the closing bracket, with nothing after it.
pub open spec fn p_tail(s: Seq<char>) -> Option<Seq<AccountV>>
    decreases s.len(),
{
    if s.len() == 0 {
        None
    } else if s[0] == ']' {
        if s.len() == 1 {
            Some(Seq::empty())
        } else {
            None
        }
    } else if s[0] == ',' {
        match p_account(s.drop_first()) {
            None => None,
            Some((a, r)) => if r.len() < s.len() {
                match p_tail(r) {
                    None => None,
                    Some(m) => Some(seq![a] + m),
                }
            } else {
                None
            },
        }
    } else {
        None
    }
}

/// A whole listing; the entire input must be consumed.
pub open spec fn p_doc(s: Seq<char>) -> Option<Seq<AccountV>> {
    if s.len() >= 1 && s[0] == '[' {
        if s.len() == 2 && s[1] == ']' {
            Some(Seq::empty())
        } else {
            match p_account(s.drop_first()) {
                None => None,
                Some((a, r)) => if r.len() < s.len() {
                    match p_tail(r) {
                        None => None,
                        Some(m) => Some(seq![a] + m),
                    }
                } else {
                    None
                },
            }
        }
    } else {
        None
    }
}

// ---------------------------------------------------------------------------
// The round trip: parsing a serialized listing yields the listing back.
// ---------------------------------------------------------------------------

proof fn lemma_p_lit(lit: Seq<char>, rest: Seq<char>)
    ensures
        p_lit(lit + rest, lit) == Some(rest),
{
    assert((lit + rest).take(lit.len() as int) =~= lit);
    assert((lit + rest).skip(lit.len() as int) =~= rest);
}

proof fn lemma_string_rt(x: Seq<char>, rest: Seq<char>)
    ensures
        p_string_body(esc(x) + seq!['"'] + rest) == Some((x, rest)),
    decreases x.len(),
{
    let s = esc(x) + seq!['"'] + rest;
    if x.len() == 0 {
        assert(esc(x) == Seq::<char>::empty());
        assert(s[0] == '"');
        assert(s.drop_first() =~= rest);
    } else {
        let c = x[0];
        let x1 = x.drop_first();
        lemma_string_rt(x1, rest);
        let s1 = esc(x1) + seq!['"'] + rest;
        assert(esc(x) == esc_char(c) + esc(x1));
        if c == '"' || c == '\\' {
            assert(s[0] == '\\');
            assert(s[1] == c);
            assert(s.len() >= 2);
            assert(s.skip(2) =~= s1);
            assert(seq![s[1]] + x1 =~= x);
        } else {
            assert(s[0] == c);
            assert(s.drop_first() =~= s1);
            assert(seq![s[0]] + x1 =~= x);
        }
    }
}

proof fn lemma_dec_digits_shape(n: nat)
    ensures
        dec_digits(n).len() >= 1,
        forall|i: int| 0 <= i < dec_digits(n).len() ==> is_digit(#[trigger] dec_digits(n)[i]),
        dec_digits(n).len() > 1 ==> dec_digits(n)[0] != '0',
        n >= 10 ==> dec_digits(n).len() > 1,
        digits_val(dec_digits(n)) == n,
    decreases n,
{
    if n < 10 {
        let w = dec_digits(n);
        assert(w == seq![digit_char(n as int)]);
        assert(w.drop_last() =~= Seq::<char>::empty());
        assert(w.last() == digit_char(n as int));
        assert(digits_val(w) == digits_val(Seq::<char>::empty()) * 10 + digit_val(
            digit_char(n as int),
        ));
        assert(digit_val(digit_char(n as int)) == n);
    } else {
        lemma_dec_digits_shape(n / 10);
        let d = dec_digits(n / 10);
        let w = dec_digits(n);
        assert(w == d + seq![digit_char((n % 10) as int)]);
        assert(w.drop_last() =~= d);
        assert(w.last() == digit_char((n % 10) as int));
        assert(digits_val(w) == digits_val(d) * 10 + digit_val(w.last()));
        assert(n / 10 >= 1);
        assert(d[0] != '0') by {
            if d.len() == 1 {
                assert(d[0] == digit_char((n / 10) as int));
            }
        }
        assert(w[0] == d[0]);
    }
}

proof fn lemma_digits_prefix(d: Seq<char>, rest: Seq<char>)
    requires
        forall|i: int| 0 <= i < d.len() ==> is_digit(#[trigger] d[i]),
        rest.len() == 0 || !is_digit(rest[0]),
    ensures
        digits_prefix_len(d + rest) == d.len(),
    decreases d.len(),
{
    let s = d + rest;
    if d.len() == 0 {
        assert(s =~= rest);
    } else {
        lemma_digits_prefix(d.drop_first(), rest);
        assert(s[0] == d[0]);
        assert(s.drop_first() =~= d.drop_first() + rest);
    }
}

proof fn lemma_u32_rt(n: u32, rest: Seq<char>)
    requires
        rest.len() == 0 || !is_digit(rest[0]),
    ensures
        p_u32(dec_digits(n as nat) + rest) == Some((n, rest)),
{
    let d = dec_digits(n as nat);
    let s = d + rest;
    lemma_dec_digits_shape(n as nat);
    lemma_digits_prefix(d, rest);
    let k = digits_prefix_len(s);
    assert(k == d.len());
    assert(s.take(k) =~= d);
    assert(s.skip(k) =~= rest);
    assert(s[0] == d[0]);
}

proof fn lemma_null_fails_on_digit(s: Seq<char>)
    requires
        s.len() > 0,
        is_digit(s[0]),
    ensures
        p_lit(s, lit_null()) is None,
{
    if lit_null().len() <= s.len() {
        assert(s.take(4)[0] == s[0]);
        assert(s.take(4) != lit_null());
    }
}

#[verifier::rlimit(100)]
#[verifier::spinoff_prover]
proof fn lemma_account_rt(a: AccountV, rest: Seq<char>)
    ensures
        p_account(ser_account(a) + rest) == Some((a, rest)),
{
    let s = ser_account(a) + rest;
    let t8 = seq!['}'] + rest;
    let t7 = quoted(a.password) + t8;
    let t6 = lit_password() + t7;
    let t5 = quoted(a.username) + t6;
    let t4 = lit_username() + t5;
    let t3 = ser_opt_str(a.email) + t4;
    let t2 = lit_email() + t3;
    let t1 = ser_opt_id(a.user_id) + t2;
    assert(s =~= lit_user_id() + t1);
    lemma_p_lit(lit_user_id(), t1);
    assert(p_lit(s, lit_user_id()) == Some(t1));

    // the identifier field
    match a.user_id {
        Some(n) => {
            lemma_dec_digits_shape(n as nat);
            assert(t1 =~= dec_digits(n as nat) + t2);
            assert(t1[0] == dec_digits(n as nat)[0]);
            lemma_null_fails_on_digit(t1);
            assert(t2[0] == ',');
            lemma_u32_rt(n, t2);
            assert(p_opt_id(t1) == Some((Some(n), t2)));
        },
        None => {
            assert(t1 =~= lit_null() + t2);
            lemma_p_lit(lit_null(), t2);
            assert(p_opt_id(t1) == Some((None::<u32>, t2)));
        },
    }

    assert(t2 =~= lit_email() + t3);
    lemma_p_lit(lit_email(), t3);

    // the email field
    match a.email {
        Some(e) => {
            assert(t3 =~= seq!['"'] + (esc(e) + seq!['"'] + t4));
            assert(t3[0] == '"');
            assert(t3.drop_first() =~= esc(e) + seq!['"'] + t4);
            lemma_string_rt(e, t4);
            assert(p_opt_str(t3) == Some((Some(e), t4)));
        },
        None => {
            assert(t3 =~= lit_null() + t4);
            assert(t3[0] == 'n');
            lemma_p_lit(lit_null(), t4);
            assert(p_opt_str(t3) == Some((None::<Seq<char>>, t4)));
        },
    }

    lemma_p_lit(lit_username(), t5);

    // the username field
    assert(t5 =~= seq!['"'] + (esc(a.username) + seq!['"'] + t6));
    assert(t5[0] == '"');
    assert(t5.drop_first() =~= esc(a.username) + seq!['"'] + t6);
    lemma_string_rt(a.username, t6);
    assert(p_str(t5) == Some((a.username, t6)));

    lemma_p_lit(lit_password(), t7);

    // the password field
    assert(t7 =~= seq!['"'] + (esc(a.password) + seq!['"'] + t8));
    assert(t7[0] == '"');
    assert(t7.drop_first() =~= esc(a.password) + seq!['"'] + t8);
    lemma_string_rt(a.password, t8);
    assert(p_str(t7) == Some((a.password, t8)));

    assert(t8[0] == '}');
    assert(t8.drop_first() =~= rest);
}

#[verifier::rlimit(60)]
#[verifier::spinoff_prover]
proof fn lemma_tail_rt(m: Seq<AccountV>)
    ensures
        p_tail(ser_tail(m)) == Some(m),
    decreases m.len(),
{
    let s = ser_tail(m);
    if m.len() == 0 {
        assert(s[0] == ']');
    } else {
        let m1 = m.drop_first();
        lemma_tail_rt(m1);
        assert(s == seq![','] + ser_account(m[0]) + ser_tail(m1));
        assert(s[0] == ',');
        assert(s.drop_first() =~= ser_account(m[0]) + ser_tail(m1));
        lemma_account_rt(m[0], ser_tail(m1));
        assert(ser_tail(m1).len() < s.len());
        assert(seq![m[0]] + m1 =~= m);
    }
}

/// The round-trip law of the persistence format: for every account
/// sequence, parsing its serialized form yields exactly that sequence.
#[verifier::rlimit(60)]
pub proof fn lemma_save_load_round_trip(m: Seq<AccountV>)
    ensures
        p_doc(ser_accounts(m)) == Some(m),
{
    let s = ser_accounts(m);
    if m.len() == 0 {
        assert(s[0] == '[');
        assert(s[1] == ']');
    } else {
        let m1 = m.drop_first();
        assert(s == seq!['['] + ser_account(m[0]) + ser_tail(m1));
        assert(s[0] == '[');
        assert(s.drop_first() =~= ser_account(m[0]) + ser_tail(m1));
        lemma_account_rt(m[0], ser_tail(m1));
        lemma_tail_rt(m1);
        assert(ser_account(m[0]).len() >= 1);
        assert(s.len() > 2) by {
            assert(ser_account(m[0]).len() >= lit_user_id().len());
        }
        assert(ser_tail(m1).len() < s.len());
        assert(seq![m[0]] + m1 =~= m);
    }
}

// ---------------------------------------------------------------------------
// The boundary with `String`. Inside the codec all text is a `Vec<char>`.
// ---------------------------------------------------------------------------

/// Relies on `str::chars`: the characters of a string slice, in order.
#[verifier::external_body]
fn str_to_chars(s: &str) -> (v: Vec<char>)
    ensures
        v@ == s@,
{
    s.chars().collect()
}

/// Relies on `String`'s `FromIterator<char>`: collecting characters yields
/// the string holding exactly those characters, in order.
#[verifier::external_body]
fn chars_to_string(v: Vec<char>) -> (s: String)
    ensures
        s@ == v@,
{
    v.into_iter().collect()
}

// ---------------------------------------------------------------------------
// The serializer.
// ---------------------------------------------------------------------------

fn lit_vec_user_id() -> (v: Vec<char>)
    ensures
        v@ == lit_user_id(),
{
    let mut v: Vec<char> = Vec::new();
    v.push('{');
    v.push('"');
    v.push('u');
    v.push('s');
    v.push('e');
    v.push('r');
    v.push('_');
    v.push('i');
    v.push('d');
    v.push('"');
    v.push(':');
    proof {
        assert(v@ =~= lit_user_id());
    }
    v
}

fn lit_vec_email() -> (v: Vec<char>)
    ensures
        v@ == lit_email(),
{
    let mut v: Vec<char> = Vec::new();
    v.push(',');
    v.push('"');
    v.push('e');
    v.push('m');
    v.push('a');
    v.push('i');
    v.push('l');
    v.push('"');
    v.push(':');
    proof {
        assert(v@ =~= lit_email());
    }
    v
}

fn lit_vec_username() -> (v: Vec<char>)
    ensures
        v@ == lit_username(),
{
    let mut v: Vec<char> = Vec::new();
    v.push(',');
    v.push('"');
    v.push('u');
    v.push('s');
    v.push('e');
    v.push('r');
    v.push('n');
    v.push('a');
    v.push('m');
    v.push('e');
    v.push('"');
    v.push(':');
    proof {
        assert(v@ =~= lit_username());
    }
    v
}

fn lit_vec_password() -> (v: Vec<char>)
    ensures
        v@ == lit_password(),
{
    let mut v: Vec<char> = Vec::new();
    v.push(',');
    v.push('"');
    v.push('p');
    v.push('a');
    v.push('s');
    v.push('s');
    v.push('w');
    v.push('o');
    v.push('r');
    v.push('d');
    v.push('"');
    v.push(':');
    proof {
        assert(v@ =~= lit_password());
    }
    v
}

fn lit_vec_null() -> (v: Vec<char>)
    ensures
        v@ == lit_null(),
{
    let mut v: Vec<char> = Vec::new();
    v.push('n');
    v.push('u');
    v.push('l');
    v.push('l');
    proof {
        assert(v@ =~= lit_null());
    }
    v
}

proof fn lemma_esc_push(x: Seq<char>, c: char)
    ensures
        esc(x.push(c)) == esc(x) + esc_char(c),
    decreases x.len(),
{
    let y = x.push(c);
    if x.len() == 0 {
        assert(y[0] == c);
        assert(y.drop_first() =~= Seq::<char>::empty());
        assert(esc(y) == esc_char(c) + esc(Seq::<char>::empty()));
        assert(esc_char(c) + esc(Seq::<char>::empty()) =~= esc_char(c));
        assert(esc(x) + esc_char(c) =~= esc_char(c));
    } else {
        lemma_esc_push(x.drop_first(), c);
        assert(y[0] == x[0]);
        assert(y.drop_first() =~= x.drop_first().push(c));
        assert(esc(y) == esc_char(x[0]) + (esc(x.drop_first()) + esc_char(c)));
        assert(esc_char(x[0]) + (esc(x.drop_first()) + esc_char(c)) =~= (esc_char(x[0]) + esc(
            x.drop_first(),
        )) + esc_char(c));
    }
}

fn push_escaped(out: &mut Vec<char>, s: &Vec<char>)
    ensures
        final(out)@ == old(out)@ + esc(s@),
{
    let ghost start = out@;
    let mut i: usize = 0;
    proof {
        assert(s@.take(0) =~= Seq::<char>::empty());
        assert(out@ =~= start + esc(s@.take(0)));
    }
    while i < s.len()
        invariant
            i <= s.len(),
            out@ == start + esc(s@.take(i as int)),
        decreases s.len() - i,
    {
        let c = s[i];
        if c == '"' {
            out.push('\\');
            out.push('"');
        } else if c == '\\' {
            out.push('\\');
            out.push('\\');
        } else {
            out.push(c);
        }
        proof {
            lemma_esc_push(s@.take(i as int), c);
            assert(s@.take(i + 1) =~= s@.take(i as int).push(c));
            assert(out@ =~= start + esc(s@.take(i + 1)));
        }
        i += 1;
    }
    proof {
        assert(s@.take(s@.len() as int) =~= s@);
    }
}

fn push_quoted(out: &mut Vec<char>, s: &Vec<char>)
    ensures
        final(out)@ == old(out)@ + quoted(s@),
{
    out.push('"');
    push_escaped(out, s);
    out.push('"');
    proof {
        assert(out@ =~= old(out)@ + quoted(s@));
    }
}

fn digit_to_char(d: u32) -> (c: char)
    requires
        d < 10,
    ensures
        c == digit_char(d as int),
{
    if d == 0 {
        '0'
    } else if d == 1 {
        '1'
    } else if d == 2 {
        '2'
    } else if d == 3 {
        '3'
    } else if d == 4 {
        '4'
    } else if d == 5 {
        '5'
    } else if d == 6 {
        '6'
    } else if d == 7 {
        '7'
    } else if d == 8 {
        '8'
    } else {
        '9'
    }
}

fn push_u32_dec(out: &mut Vec<char>, n: u32)
    ensures
        final(out)@ == old(out)@ + dec_digits(n as nat),
    decreases n,
{
    if n < 10 {
        let c = digit_to_char(n);
        out.push(c);
        proof {
            assert(out@ =~= old(out)@ + dec_digits(n as nat));
        }
    } else {
        push_u32_dec(out, n / 10);
        let c = digit_to_char(n % 10);
        out.push(c);
        proof {
            assert((n / 10) as nat == (n as nat) / 10);
            assert((n % 10) as nat == (n as nat) % 10);
            assert(out@ =~= old(out)@ + dec_digits(n as nat));
        }
    }
}

/// Writes one record in its serialized form onto `out`.
fn push_account(out: &mut Vec<char>, a: &Account)
    ensures
        final(out)@ == old(out)@ + ser_account(a@),
{
    let mut lit = lit_vec_user_id();
    out.append(&mut lit);
    match &a.user_id {
        Some(n) => push_u32_dec(out, *n),
        None => {
            let mut null_lit = lit_vec_null();
            out.append(&mut null_lit);
        },
    }
    let mut lit_e = lit_vec_email();
    out.append(&mut lit_e);
    match &a.email {
        Some(s) => {
            let cs = str_to_chars(s.as_str());
            push_quoted(out, &cs);
        },
        None => {
            let mut null_lit = lit_vec_null();
            out.append(&mut null_lit);
        },
    }
    let mut lit_u = lit_vec_username();
    out.append(&mut lit_u);
    let cu = str_to_chars(a.username.as_str());
    push_quoted(out, &cu);
    let mut lit_p = lit_vec_password();
    out.append(&mut lit_p);
    let cp = str_to_chars(a.password.as_str());
    push_quoted(out, &cp);
    out.push('}');
    proof {
        assert(out@ =~= old(out)@ + ser_account(a@));
    }
}

/// Serializes an ordered collection of records to its persistence text.
pub fn accounts_to_text(accounts: &Vec<Account>) -> (r: String)
    ensures
        r@ == ser_accounts(accounts@.map_values(|a: Account| a@)),
{
    let ghost m: Seq<AccountV> = accounts@.map_values(|a: Account| a@);
    let mut out: Vec<char> = Vec::new();
    out.push('[');
    if accounts.len() == 0 {
        out.push(']');
        proof {
            assert(out@ =~= ser_accounts(m));
        }
        return chars_to_string(out);
    }
    push_account(&mut out, &accounts[0]);
    proof {
        assert(m.drop_first() =~= m.skip(1));
        assert(ser_accounts(m) =~= out@ + ser_tail(m.skip(1)));
    }
    let mut i: usize = 1;
    while i < accounts.len()
        invariant
            1 <= i <= accounts.len(),
            m == accounts@.map_values(|a: Account| a@),
            ser_accounts(m) == out@ + ser_tail(m.skip(i as int)),
        decreases accounts.len() - i,
    {
        let ghost before = out@;
        out.push(',');
        push_account(&mut out, &accounts[i]);
        proof {
            let suffix = m.skip(i as int);
            assert(suffix.len() > 0);
            assert(suffix[0] == m[i as int]);
            assert(suffix.drop_first() =~= m.skip(i + 1));
            assert(ser_tail(suffix) == seq![','] + ser_account(m[i as int]) + ser_tail(
                m.skip(i + 1),
            ));
            assert(out@ =~= before + (seq![','] + ser_account(m[i as int])));
            assert(before + (seq![','] + ser_account(m[i as int])) + ser_tail(m.skip(i + 1)) =~=
                before + ser_tail(suffix));
        }
        i += 1;
    }
    proof {
        assert(m.skip(accounts@.len() as int) =~= Seq::<AccountV>::empty());
    }
    out.push(']');
    proof {
        assert(out@ =~= ser_accounts(m));
    }
    chars_to_string(out)
}

// ---------------------------------------------------------------------------
// The parser.
// ---------------------------------------------------------------------------

fn pe_lit(v: &Vec<char>, i: usize, lit: &Vec<char>) -> (r: Option<usize>)
    requires
        i <= v.len(),
    ensures
        match r {
            Some(j) => j == i + lit@.len() && j <= v.len() && p_lit(v@.skip(i as int), lit@)
                == Some(v@.skip(j as int)),
            None => p_lit(v@.skip(i as int), lit@) is None,
        },
{
    let ghost s = v@.skip(i as int);
    if v.len() - i < lit.len() {
        return None;
    }
    let mut k: usize = 0;
    while k < lit.len()
        invariant
            k <= lit.len(),
            i + lit.len() <= v.len(),
            s == v@.skip(i as int),
            forall|t: int| 0 <= t < k ==> v@[i + t] == lit@[t],
        decreases lit.len() - k,
    {
        if v[i + k] != lit[k] {
            proof {
                assert(lit@.len() <= s.len());
                assert(s[k as int] == v@[i + k]);
                assert(s.take(lit@.len() as int)[k as int] == s[k as int]);
                assert(s.take(lit@.len() as int) != lit@);
            }
            return None;
        }
        k += 1;
    }
    proof {
        assert(s.take(lit@.len() as int) =~= lit@);
        assert(s.skip(lit@.len() as int) =~= v@.skip(i + lit@.len()));
    }
    Some(i + lit.len())
}

fn pe_string_body(v: &Vec<char>, i: usize) -> (r: Option<(Vec<char>, usize)>)
    requires
        i <= v.len(),
    ensures
        match r {
            Some((x, j)) => i <= j <= v.len() && p_string_body(v@.skip(i as int)) == Some(
                (x@, v@.skip(j as int)),
            ),
            None => p_string_body(v@.skip(i as int)) is None,
        },
    decreases v.len() - i,
{
    let ghost s = v@.skip(i as int);
    if i == v.len() {
        return None;
    }
    let c = v[i];
    proof {
        assert(s[0] == c);
    }
    if c == '"' {
        let x: Vec<char> = Vec::new();
        proof {
            assert(v@.skip(i + 1) =~= s.drop_first());
            assert(x@ =~= Seq::<char>::empty());
        }
        return Some((x, i + 1));
    }
    if c == '\\' {
        if i + 1 < v.len() && (v[i + 1] == '"' || v[i + 1] == '\\') {
            proof {
                assert(s.len() >= 2);
                assert(s[1] == v@[i + 1]);
                assert(v@.skip(i + 2) =~= s.skip(2));
            }
            match pe_string_body(v, i + 2) {
                None => None,
                Some((mut x, j)) => {
                    let e = v[i + 1];
                    x.insert(0, e);
                    proof {
                        assert(x@ =~= seq![s[1]] + x@.drop_first());
                    }
                    Some((x, j))
                },
            }
        } else {
            proof {
                if i + 1 < v.len() {
                    assert(s.len() >= 2 && s[1] == v@[i + 1]);
                } else {
                    assert(s.len() < 2);
                }
            }
            None
        }
    } else {
        proof {
            assert(v@.skip(i + 1) =~= s.drop_first());
        }
        match pe_string_body(v, i + 1) {
            None => None,
            Some((mut x, j)) => {
                x.insert(0, c);
                proof {
                    assert(x@ =~= seq![s[0]] + x@.drop_first());
                }
                Some((x, j))
            },
        }
    }
}

proof fn lemma_digits_val_nonneg(ds: Seq<char>)
    requires
        forall|t: int| 0 <= t < ds.len() ==> is_digit(#[trigger] ds[t]),
    ensures
        digits_val(ds) >= 0,
    decreases ds.len(),
{
    if ds.len() > 0 {
        lemma_digits_val_nonneg(ds.drop_last());
    }
}

proof fn lemma_digits_val_grows(ds: Seq<char>, t: int)
    requires
        0 <= t <= ds.len(),
        forall|u: int| 0 <= u < ds.len() ==> is_digit(#[trigger] ds[u]),
    ensures
        digits_val(ds) >= digits_val(ds.take(t)),
    decreases ds.len() - t,
{
    if t < ds.len() {
        lemma_digits_val_grows(ds, t + 1);
        let p = ds.take(t + 1);
        assert(p.drop_last() =~= ds.take(t));
        assert(p.last() == ds[t]);
        lemma_digits_val_nonneg(ds.take(t));
        assert(digits_val(p) == digits_val(ds.take(t)) * 10 + digit_val(ds[t]));
    } else {
        assert(ds.take(t) =~= ds);
    }
}

fn pe_u32(v: &Vec<char>, i: usize) -> (r: Option<(u32, usize)>)
    requires
        i <= v.len(),
    ensures
        match r {
            Some((n, j)) => i < j <= v.len() && p_u32(v@.skip(i as int)) == Some(
                (n, v@.skip(j as int)),
            ),
            None => p_u32(v@.skip(i as int)) is None,
        },
{
    let ghost s = v@.skip(i as int);
    let mut j: usize = i;
    proof {
        assert(digits_prefix_len(s) == (j - i) + digits_prefix_len(v@.skip(j as int)));
    }
    while j < v.len() && v[j] >= '0' && v[j] <= '9'
        invariant
            i <= j <= v.len(),
            forall|t: int| i <= t < j ==> is_digit(#[trigger] v@[t]),
            digits_prefix_len(s) == (j - i) + digits_prefix_len(v@.skip(j as int)),
        decreases v.len() - j,
    {
        proof {
            assert(v@.skip(j as int)[0] == v@[j as int]);
            assert(v@.skip(j as int).drop_first() =~= v@.skip(j + 1));
        }
        j += 1;
    }
    proof {
        if j < v.len() {
            assert(v@.skip(j as int)[0] == v@[j as int]);
        }
        assert(digits_prefix_len(v@.skip(j as int)) == 0);
        assert(digits_prefix_len(s) == j - i);
        assert(forall|t: int| 0 <= t < j - i ==> s[t] == v@[i + t]);
    }
    if j == i {
        return None;
    }
    if v[i] == '0' && j - i > 1 {
        proof {
            assert(s[0] == '0');
        }
        return None;
    }
    let ghost k: int = j - i;
    let ghost digits = s.take(k);
    proof {
        assert(forall|t: int| 0 <= t < digits.len() ==> is_digit(#[trigger] digits[t]));
    }
    let mut acc: u64 = 0;
    let mut t: usize = i;
    proof {
        assert(digits.take(0) =~= Seq::<char>::empty());
    }
    while t < j
        invariant
            i <= t <= j <= v.len(),
            k == j - i,
            k > 0,
            s == v@.skip(i as int),
            digits == s.take(k),
            digits.len() == k,
            digits_prefix_len(s) == k,
            !(s[0] == '0' && k > 1),
            forall|u: int| 0 <= u < digits.len() ==> is_digit(#[trigger] digits[u]),
            forall|u: int| 0 <= u < k ==> digits[u] == v@[i + u],
            acc == digits_val(digits.take(t - i)),
            acc <= u32::MAX,
        decreases j - t,
    {
        let c = v[t];
        proof {
            assert(c == digits[t - i]);
            assert(is_digit(c));
        }
        let d: u32 = (c as u32) - 48;
        acc = acc * 10 + (d as u64);
        proof {
            let p = digits.take(t + 1 - i);
            assert(p.drop_last() =~= digits.take(t - i));
            assert(p.last() == digits[t - i]);
            assert(digit_val(c) == d);
            assert(digits_val(p) == digits_val(digits.take(t - i)) * 10 + d);
        }
        if acc > 0xFFFF_FFFFu64 {
            proof {
                lemma_digits_val_grows(digits, t + 1 - i);
                assert(digits.take(digits.len() as int) =~= digits);
                assert(digits_val(digits) >= acc);
                assert(digits_val(s.take(k)) > u32::MAX);
            }
            return None;
        }
        t += 1;
    }
    proof {
        assert(digits.take(t - i) =~= digits);
        assert(digits_val(s.take(k)) == acc);
        assert(v@.skip(j as int) =~= s.skip(k));
    }
    Some((acc as u32, j))
}

fn pe_opt_id(v: &Vec<char>, i: usize) -> (r: Option<(Option<u32>, usize)>)
    requires
        i <= v.len(),
    ensures
        match r {
            Some((n, j)) => i < j <= v.len() && p_opt_id(v@.skip(i as int)) == Some(
                (n, v@.skip(j as int)),
            ),
            None => p_opt_id(v@.skip(i as int)) is None,
        },
{
    let null_lit = lit_vec_null();
    match pe_lit(v, i, &null_lit) {
        Some(j) => Some((None, j)),
        None => match pe_u32(v, i) {
            Some((n, j)) => Some((Some(n), j)),
            None => None,
        },
    }
}

fn pe_opt_str(v: &Vec<char>, i: usize) -> (r: Option<(Option<Vec<char>>, usize)>)
    requires
        i <= v.len(),
    ensures
        match r {
            Some((x, j)) => i < j <= v.len() && p_opt_str(v@.skip(i as int)) == Some(
                (
                    match x {
                        Some(cs) => Some(cs@),
                        None => None,
                    },
                    v@.skip(j as int),
                ),
            ),
            None => p_opt_str(v@.skip(i as int)) is None,
        },
{
    let ghost s = v@.skip(i as int);
    if i < v.len() && v[i] == '"' {
        proof {
            assert(s[0] == '"');
            assert(v@.skip(i + 1) =~= s.drop_first());
        }
        match pe_string_body(v, i + 1) {
            Some((x, j)) => Some((Some(x), j)),
            None => None,
        }
    } else {
        proof {
            if i < v.len() {
                assert(s[0] == v@[i as int]);
            }
        }
        let null_lit = lit_vec_null();
        match pe_lit(v, i, &null_lit) {
            Some(j) => Some((None, j)),
            None => None,
        }
    }
}

fn pe_str(v: &Vec<char>, i: usize) -> (r: Option<(Vec<char>, usize)>)
    requires
        i <= v.len(),
    ensures
        match r {
            Some((x, j)) => i < j <= v.len() && p_str(v@.skip(i as int)) == Some(
                (x@, v@.skip(j as int)),
            ),
            None => p_str(v@.skip(i as int)) is None,
        },
{
    let ghost s = v@.skip(i as int);
    if i < v.len() && v[i] == '"' {
        proof {
            assert(s[0] == '"');
            assert(v@.skip(i + 1) =~= s.drop_first());
        }
        pe_string_body(v, i + 1)
    } else {
        proof {
            if i < v.len() {
                assert(s[0] == v@[i as int]);
            }
        }
        None
    }
}

fn pe_account(v: &Vec<char>, i: usize) -> (r: Option<(Account, usize)>)
    requires
        i <= v.len(),
    ensures
        match r {
            Some((a, j)) => i < j <= v.len() && p_account(v@.skip(i as int)) == Some(
                (a@, v@.skip(j as int)),
            ),
            None => p_account(v@.skip(i as int)) is None,
        },
{
    let lit_uid = lit_vec_user_id();
    let j1 = match pe_lit(v, i, &lit_uid) {
        Some(j) => j,
        None => {
            return None;
        },
    };
    let (uid, j2) = match pe_opt_id(v, j1) {
        Some(p) => p,
        None => {
            return None;
        },
    };
    let lit_em = lit_vec_email();
    let j3 = match pe_lit(v, j2, &lit_em) {
        Some(j) => j,
        None => {
            return None;
        },
    };
    let (em, j4) = match pe_opt_str(v, j3) {
        Some(p) => p,
        None => {
            return None;
        },
    };
    let lit_un = lit_vec_username();
    let j5 = match pe_lit(v, j4, &lit_un) {
        Some(j) => j,
        None => {
            return None;
        },
    };
    let (un, j6) = match pe_str(v, j5) {
        Some(p) => p,
        None => {
            return None;
        },
    };
    let lit_pw = lit_vec_password();
    let j7 = match pe_lit(v, j6, &lit_pw) {
        Some(j) => j,
        None => {
            return None;
        },
    };
    let (pw, j8) = match pe_str(v, j7) {
        Some(p) => p,
        None => {
            return None;
        },
    };
    if j8 < v.len() && v[j8] == '}' {
        proof {
            assert(v@.skip(j8 as int)[0] == '}');
            assert(v@.skip(j8 + 1) =~= v@.skip(j8 as int).drop_first());
        }
        let account = Account {
            user_id: uid,
            email: match em {
                Some(cs) => Some(chars_to_string(cs)),
                None => None,
            },
            username: chars_to_string(un),
            password: chars_to_string(pw),
        };
        Some((account, j8 + 1))
    } else {
        proof {
            if j8 < v.len() {
                assert(v@.skip(j8 as int)[0] == v@[j8 as int]);
            }
        }
        None
    }
}

/// Parses a persistence text back into its ordered collection of records,
/// or nothing where the text is not a well-formed listing.
pub fn accounts_from_text(text: &str) -> (r: Option<Vec<Account>>)
    ensures
        match r {
            Some(accs) => p_doc(text@) == Some(accs@.map_values(|a: Account| a@)),
            None => p_doc(text@) is None,
        },
{
    let v = str_to_chars(text);
    if v.len() == 0 || {
        let c = v[0];
        c != '['
    } {
        return None;
    }
    if v.len() == 2 && v[1] == ']' {
        let accs: Vec<Account> = Vec::new();
        proof {
            assert(accs@.map_values(|a: Account| a@) =~= Seq::<AccountV>::empty());
        }
        return Some(accs);
    }
    proof {
        assert(v@.skip(1) =~= v@.drop_first());
    }
    let (a0, j0) = match pe_account(&v, 1) {
        Some(p) => p,
        None => {
            return None;
        },
    };
    let mut accs: Vec<Account> = Vec::new();
    accs.push(a0);
    let mut i: usize = j0;
    proof {
        assert(accs@.map_values(|a: Account| a@) =~= seq![a0@]);
        assert(v@.skip(j0 as int).len() < v@.len());
    }
    loop
        invariant
            1 <= i <= v.len(),
            v@ == text@,
            match p_tail(v@.skip(i as int)) {
                Some(m) => p_doc(v@) == Some(accs@.map_values(|a: Account| a@) + m),
                None => p_doc(v@) is None,
            },
        decreases v.len() - i,
    {
        if i == v.len() {
            return None;
        }
        let c = v[i];
        proof {
            assert(v@.skip(i as int)[0] == c);
        }
        if c == ']' {
            if i + 1 == v.len() {
                proof {
                    assert(v@.skip(i as int).len() == 1);
                    assert(p_tail(v@.skip(i as int)) == Some(Seq::<AccountV>::empty()));
                    assert(accs@.map_values(|a: Account| a@) + Seq::<AccountV>::empty() =~= accs@
                        .map_values(|a: Account| a@));
                }
                return Some(accs);
            } else {
                return None;
            }
        } else if c == ',' {
            proof {
                assert(v@.skip(i + 1) =~= v@.skip(i as int).drop_first());
            }
            match pe_account(&v, i + 1) {
                None => {
                    return None;
                },
                Some((a, j)) => {
                    proof {
                        assert(v@.skip(j as int).len() < v@.skip(i as int).len());
                    }
                    let ghost prior = accs@.map_values(|a: Account| a@);
                    accs.push(a);
                    proof {
                        assert(accs@.map_values(|x: Account| x@) =~= prior.push(a@));
                        if p_tail(v@.skip(j as int)) is Some {
                            let m = p_tail(v@.skip(j as int))->Some_0;
                            assert(p_tail(v@.skip(i as int)) == Some(seq![a@] + m));
                            assert(prior + (seq![a@] + m) =~= prior.push(a@) + m);
                        }
                    }
                    i = j;
                },
            }
        } else {
            return None;
        }
    }
}

} // verus!
