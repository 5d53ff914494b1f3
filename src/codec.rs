use vstd::prelude::*;
use crate::date::{Date, MAX_YEAR, MIN_YEAR};
use crate::ident::IDGenerator;
use crate::planner::{Event, EventView, Planner, PlannerError, PlannerView, events_wf};
use crate::view::events_view;

verus! {

pub open spec fn is_digit(c: char) -> bool {
    '0' <= c && c <= '9'
}

pub open spec fn digit_value(c: char) -> nat {
    (c as int - '0' as int) as nat
}

pub open spec fn digit_char(d: int) -> char {
    if d == 0 {
        '0'
    } else if d == 1 {
        '1'
    } else if d == 2 {
        '2'
    } else if d == 3 {
        '3'
    } else if d == 4 {
        '4'
    } else if d == 5 {
        '5'
    } else if d == 6 {
        '6'
    } else if d == 7 {
        '7'
    } else if d == 8 {
        '8'
    } else {
        '9'
    }
}

/// Decimal digits of `n`, without leading zeros.
pub open spec fn enc_nat(n: nat) -> Seq<char>
    decreases n,
{
    if n < 10 {
        seq![digit_char(n as int)]
    } else {
        enc_nat(n / 10).push(digit_char((n % 10) as int))
    }
}

/// The number that a string of decimal digits denotes.
pub open spec fn digits_value(d: Seq<char>) -> nat
    decreases d.len(),
{
    if d.len() == 0 {
        0
    } else {
        digits_value(d.drop_last()) * 10 + digit_value(d.last())
    }
}

pub open spec fn all_digits(d: Seq<char>) -> bool {
    forall|i: int| 0 <= i < d.len() ==> is_digit(#[trigger] d[i])
}

/// `piece` stands in `s` at position `pos`.
pub open spec fn at(s: Seq<char>, pos: int, piece: Seq<char>) -> bool {
    0 <= pos && pos + piece.len() <= s.len() && s.subrange(pos, pos + piece.len()) == piece
}

/// Position `pos` of `s` ends a run of digits: the text ends there or holds no digit there.
pub open spec fn digits_end(s: Seq<char>, pos: int) -> bool {
    pos == s.len() || !is_digit(s[pos])
}

proof fn lemma_digit_char(d: int)
    requires
        0 <= d < 10,
    ensures
        is_digit(digit_char(d)),
        digit_value(digit_char(d)) == d,
{
}

proof fn lemma_char_of_digit(c: char)
    requires
        is_digit(c),
    ensures
        digit_char(digit_value(c) as int) == c,
        digit_value(c) < 10,
{
}

proof fn lemma_enc_nat(n: nat)
    ensures
        enc_nat(n).len() >= 1,
        all_digits(enc_nat(n)),
        digits_value(enc_nat(n)) == n,
        enc_nat(n).len() > 1 ==> enc_nat(n)[0] != '0',
        n >= 10 ==> enc_nat(n).len() >= 2,
    decreases n,
{
    if n < 10 {
        lemma_digit_char(n as int);
        let e = enc_nat(n);
        assert(e =~= seq![digit_char(n as int)]);
        assert(e.drop_last() =~= Seq::<char>::empty());
        assert(digits_value(e.drop_last()) == 0);
        assert(e.len() == 1);
        assert(digits_value(e) == n);
    } else {
        lemma_enc_nat(n / 10);
        lemma_digit_char((n % 10) as int);
        let e = enc_nat(n);
        assert(e.drop_last() =~= enc_nat(n / 10));
        assert(e.last() == digit_char((n % 10) as int));
        vstd::arithmetic::div_mod::lemma_fundamental_div_mod(n as int, 10);
        assert(digits_value(e) == (n / 10) * 10 + n % 10);
        assert(e[0] == enc_nat(n / 10)[0]);
        if n / 10 < 10 {
            lemma_digit_char((n / 10) as int);
            assert(enc_nat(n / 10)[0] == digit_char((n / 10) as int));
            assert(digit_value(e[0]) == n / 10);
        }
        assert(digits_value(e) == n);
        assert(e[0] != '0');
    }
}

proof fn lemma_value_lower(d: Seq<char>)
    requires
        all_digits(d),
        d.len() >= 1,
        d[0] != '0',
    ensures
        digits_value(d) >= 1,
        d.len() >= 2 ==> digits_value(d) >= 10,
    decreases d.len(),
{
    if d.len() == 1 {
        assert(d.drop_last() =~= Seq::<char>::empty());
    } else {
        let p = d.drop_last();
        assert(all_digits(p));
        lemma_value_lower(p);
    }
}

/// A digit string without leading zeros is the encoding of its value.
proof fn lemma_canonical(d: Seq<char>)
    requires
        all_digits(d),
        d.len() >= 1,
        d.len() > 1 ==> d[0] != '0',
    ensures
        enc_nat(digits_value(d)) == d,
    decreases d.len(),
{
    let p = d.drop_last();
    lemma_char_of_digit(d.last());
    if d.len() == 1 {
        assert(p =~= Seq::<char>::empty());
        assert(digits_value(p) == 0);
        assert(digits_value(d) == digit_value(d[0]));
        assert(enc_nat(digits_value(d)) =~= d);
    } else {
        assert(all_digits(p));
        lemma_value_lower(d);
        lemma_canonical(p);
        let v = digits_value(d);
        assert(v / 10 == digits_value(p));
        assert(v % 10 == digit_value(d.last()));
        assert(enc_nat(v) =~= d);
    }
}

proof fn lemma_value_prefix(d: Seq<char>, k: int)
    requires
        all_digits(d),
        0 <= k <= d.len(),
    ensures
        digits_value(d.take(k)) <= digits_value(d),
    decreases d.len(),
{
    if k < d.len() {
        let p = d.drop_last();
        assert(all_digits(p));
        assert(d.take(k) =~= p.take(k));
        lemma_value_prefix(p, k);
    } else {
        assert(d.take(k) =~= d);
    }
}

fn digit_str(d: u64) -> (r: &'static str)
    requires
        d < 10,
    ensures
        r@ == seq![digit_char(d as int)],
{
    proof {
        reveal_strlit("0");
        reveal_strlit("1");
        reveal_strlit("2");
        reveal_strlit("3");
        reveal_strlit("4");
        reveal_strlit("5");
        reveal_strlit("6");
        reveal_strlit("7");
        reveal_strlit("8");
        reveal_strlit("9");
    }
    if d == 0 {
        "0"
    } else if d == 1 {
        "1"
    } else if d == 2 {
        "2"
    } else if d == 3 {
        "3"
    } else if d == 4 {
        "4"
    } else if d == 5 {
        "5"
    } else if d == 6 {
        "6"
    } else if d == 7 {
        "7"
    } else if d == 8 {
        "8"
    } else {
        "9"
    }
}

/// Appends the decimal digits of `n`.
fn write_nat(out: &mut String, n: u64)
    ensures
        final(out)@ == old(out)@ + enc_nat(n as nat),
    decreases n,
{
    if n >= 10 {
        write_nat(out, n / 10);
    }
    out.append(digit_str(n % 10));
    assert(n >= 10 ==> enc_nat(n as nat) == enc_nat((n / 10) as nat).push(digit_char((n % 10) as int)));
    assert(final(out)@ =~= old(out)@ + enc_nat(n as nat));
}

fn is_digit_at(s: &str, i: usize) -> (r: bool)
    requires
        i < s@.len(),
    ensures
        r == is_digit(s@[i as int]),
{
    let c = s.get_char(i);
    '0' <= c && c <= '9'
}

/// Whether `lit` stands in `s` at position `pos`.
fn lit_at(s: &str, pos: usize, lit: &str) -> (r: bool)
    requires
        pos <= s@.len(),
    ensures
        r == at(s@, pos as int, lit@),
{
    let n = lit.unicode_len();
    let len = s.unicode_len();
    if n > len - pos {
        return false;
    }
    let mut j: usize = 0;
    while j < n
        invariant
            n == lit@.len(),
            len == s@.len(),
            pos + n <= len,
            j <= n,
            s@.subrange(pos as int, pos + j) == lit@.subrange(0, j as int),
        decreases n - j,
    {
        if s.get_char(pos + j) != lit.get_char(j) {
            assert(s@.subrange(pos as int, pos + n)[j as int] != lit@[j as int]);
            return false;
        }
        assert(s@.subrange(pos as int, pos + j + 1) =~= s@.subrange(pos as int, pos + j).push(
            s@[pos + j],
        ));
        assert(lit@.subrange(0, j + 1) =~= lit@.subrange(0, j as int).push(lit@[j as int]));
        j = j + 1;
    }
    assert(lit@.subrange(0, n as int) =~= lit@);
    true
}

/// Text holds, at `pos`, the digits of `m` and then no further digit.
pub open spec fn nat_at(s: Seq<char>, pos: int, m: nat) -> bool {
    at(s, pos, enc_nat(m)) && digits_end(s, pos + enc_nat(m).len())
}

/// Reads a number without leading zeros that fits in `u64`.
fn parse_nat(s: &str, pos: usize) -> (r: Option<(u64, usize)>)
    requires
        pos <= s@.len(),
    ensures
        r matches Some((n, e)) ==> nat_at(s@, pos as int, n as nat) && e == pos + enc_nat(
            n as nat,
        ).len(),
        forall|m: u64| #[trigger]
            nat_at(s@, pos as int, m as nat) ==> r == Some((m, (pos + enc_nat(m as nat).len()) as usize)),
{
    let len = s.unicode_len();
    let mut i: usize = pos;
    let mut acc: u64 = 0;
    assert(s@.subrange(pos as int, pos as int) =~= Seq::<char>::empty());
    while i < len && is_digit_at(s, i)
        invariant
            len == s@.len(),
            pos <= i <= len,
            all_digits(s@.subrange(pos as int, i as int)),
            acc == digits_value(s@.subrange(pos as int, i as int)),
            forall|m: u64| #[trigger]
                nat_at(s@, pos as int, m as nat) ==> i <= pos + enc_nat(m as nat).len(),
        decreases len - i,
    {
        let c = s.get_char(i);
        let d = (c as u32 - '0' as u32) as u64;
        let ghost next = s@.subrange(pos as int, i + 1);
        assert(next.drop_last() =~= s@.subrange(pos as int, i as int));
        assert(forall|m: u64| #[trigger]
            nat_at(s@, pos as int, m as nat) ==> i < pos + enc_nat(m as nat).len());
        if acc > (u64::MAX - d) / 10 {
            assert(acc * 10 + d > u64::MAX) by (nonlinear_arith)
                requires
                    acc > (u64::MAX - d) / 10,
                    d <= 9,
            ;
            assert forall|m: u64| !nat_at(s@, pos as int, m as nat) by {
                if nat_at(s@, pos as int, m as nat) {
                    let e = enc_nat(m as nat);
                    lemma_enc_nat(m as nat);
                    lemma_value_prefix(e, i + 1 - pos);
                    assert(e.take(i + 1 - pos) =~= next);
                }
            }
            return None;
        }
        acc = acc * 10 + d;
        i = i + 1;
        assert(all_digits(s@.subrange(pos as int, i as int)));
    }
    assert forall|m: u64| #[trigger] nat_at(s@, pos as int, m as nat) implies i == pos + enc_nat(
        m as nat,
    ).len() && acc == m by {
        let e = enc_nat(m as nat);
        lemma_enc_nat(m as nat);
        if i < pos + e.len() {
            assert(s@[i as int] == e[i - pos]);
        }
        assert(s@.subrange(pos as int, i as int) =~= e);
    }
    if i == pos {
        assert forall|m: u64| !nat_at(s@, pos as int, m as nat) by {
            lemma_enc_nat(m as nat);
        }
        return None;
    }
    if i - pos > 1 && s.get_char(pos) == '0' {
        assert forall|m: u64| !nat_at(s@, pos as int, m as nat) by {
            lemma_enc_nat(m as nat);
            if nat_at(s@, pos as int, m as nat) {
                assert(s@.subrange(pos as int, i as int)[0] == s@[pos as int]);
            }
        }
        return None;
    }
    proof {
        let ds = s@.subrange(pos as int, i as int);
        if ds.len() > 1 {
            assert(ds[0] == s@[pos as int]);
        }
        lemma_canonical(ds);
    }
    Some((acc, i))
}

proof fn lemma_at_concat(s: Seq<char>, pos: int, a: Seq<char>, b: Seq<char>)
    ensures
        at(s, pos, a + b) == (at(s, pos, a) && at(s, pos + a.len(), b)),
{
    if at(s, pos, a + b) {
        let w = s.subrange(pos, pos + (a + b).len());
        assert(w == a + b);
        assert((a + b).subrange(0, a.len() as int) =~= a);
        assert((a + b).subrange(a.len() as int, (a + b).len() as int) =~= b);
        assert(s.subrange(pos, pos + a.len()) =~= w.subrange(0, a.len() as int));
        assert(s.subrange(pos + a.len(), pos + a.len() + b.len()) =~= w.subrange(
            a.len() as int,
            (a + b).len() as int,
        ));
        assert(s.subrange(pos, pos + a.len()) =~= (a + b).subrange(0, a.len() as int));
        assert(s.subrange(pos + a.len(), pos + a.len() + b.len()) =~= (a + b).subrange(
            a.len() as int,
            (a + b).len() as int,
        ));
    }
    if at(s, pos, a) && at(s, pos + a.len(), b) {
        assert(s.subrange(pos, pos + (a + b).len()) =~= a + b);
    }
}

/// Decimal text of a year, with a leading `-` before the first year.
pub open spec fn enc_year(y: int) -> Seq<char> {
    if y < 0 {
        seq!['-'] + enc_nat((-y) as nat)
    } else {
        enc_nat(y as nat)
    }
}

pub open spec fn year_at(s: Seq<char>, pos: int, y: int) -> bool {
    at(s, pos, enc_year(y)) && digits_end(s, pos + enc_year(y).len())
}

fn write_year(out: &mut String, y: i32)
    ensures
        final(out)@ == old(out)@ + enc_year(y as int),
{
    if y < 0 {
        out.append("-");
        proof {
            reveal_strlit("-");
        }
        let m: u64 = (0 - (y as i64)) as u64;
        write_nat(out, m);
        assert(final(out)@ =~= old(out)@ + enc_year(y as int));
    } else {
        write_nat(out, y as u64);
    }
}

/// Reads a year of the supported range.
fn parse_year(s: &str, pos: usize) -> (r: Option<(i32, usize)>)
    requires
        pos <= s@.len(),
    ensures
        r matches Some((y, e)) ==> MIN_YEAR <= y <= MAX_YEAR && year_at(s@, pos as int, y as int)
            && e == pos + enc_year(y as int).len(),
        forall|y: i32|
            MIN_YEAR <= y <= MAX_YEAR && #[trigger] year_at(s@, pos as int, y as int) ==> r == Some(
                (y, (pos + enc_year(y as int).len()) as usize),
            ),
{
    proof {
        reveal_strlit("-");
    }
    if pos < s.unicode_len() && s.get_char(pos) == '-' {
        match parse_nat(s, pos + 1) {
            Some((n, e)) => {
                if n < 1 || n > 262143 {
                    assert forall|y: i32|
                        MIN_YEAR <= y <= MAX_YEAR && #[trigger] year_at(s@, pos as int, y as int)
                            implies false by {
                        lemma_enc_nat((-y) as nat);
                        lemma_enc_nat(y as nat);
                        if y < 0 {
                            lemma_at_concat(s@, pos as int, seq!['-'], enc_nat((-y) as nat));
                            assert(nat_at(s@, pos + 1, (-y) as u64 as nat));
                        } else {
                            assert(enc_year(y as int)[0] == s@[pos as int]);
                        }
                    }
                    return None;
                }
                let y: i32 = 0 - (n as i32);
                proof {
                    lemma_at_concat(s@, pos as int, seq!['-'], enc_nat(n as nat));
                    assert(s@.subrange(pos as int, pos + 1) =~= seq!['-']);
                    assert forall|y2: i32|
                        MIN_YEAR <= y2 <= MAX_YEAR && #[trigger] year_at(s@, pos as int, y2 as int)
                            implies y2 == y by {
                        lemma_enc_nat((-y2) as nat);
                        lemma_enc_nat(y2 as nat);
                        if y2 < 0 {
                            lemma_at_concat(s@, pos as int, seq!['-'], enc_nat((-y2) as nat));
                            assert(nat_at(s@, pos + 1, (-y2) as u64 as nat));
                        } else {
                            assert(enc_year(y2 as int)[0] == s@[pos as int]);
                        }
                    }
                }
                Some((y, e))
            },
            None => {
                assert forall|y: i32|
                    MIN_YEAR <= y <= MAX_YEAR && #[trigger] year_at(s@, pos as int, y as int)
                        implies false by {
                    lemma_enc_nat((-y) as nat);
                    lemma_enc_nat(y as nat);
                    if y < 0 {
                        lemma_at_concat(s@, pos as int, seq!['-'], enc_nat((-y) as nat));
                        assert(nat_at(s@, pos + 1, (-y) as u64 as nat));
                    } else {
                        assert(enc_year(y as int)[0] == s@[pos as int]);
                    }
                }
                None
            },
        }
    } else {
        match parse_nat(s, pos) {
            Some((n, e)) => {
                if n > 262142 {
                    assert forall|y: i32|
                        MIN_YEAR <= y <= MAX_YEAR && #[trigger] year_at(s@, pos as int, y as int)
                            implies false by {
                        if y < 0 {
                            assert(enc_year(y as int)[0] == s@[pos as int]);
                        } else {
                            assert(nat_at(s@, pos as int, y as u64 as nat));
                        }
                    }
                    return None;
                }
                proof {
                    assert forall|y2: i32|
                        MIN_YEAR <= y2 <= MAX_YEAR && #[trigger] year_at(s@, pos as int, y2 as int)
                            implies y2 == n by {
                        if y2 < 0 {
                            assert(enc_year(y2 as int)[0] == s@[pos as int]);
                        } else {
                            assert(nat_at(s@, pos as int, y2 as u64 as nat));
                        }
                    }
                }
                Some((n as i32, e))
            },
            None => {
                assert forall|y: i32|
                    MIN_YEAR <= y <= MAX_YEAR && #[trigger] year_at(s@, pos as int, y as int)
                        implies false by {
                    if y < 0 {
                        assert(enc_year(y as int)[0] == s@[pos as int]);
                    } else {
                        assert(nat_at(s@, pos as int, y as u64 as nat));
                    }
                }
                None
            },
        }
    }
}

pub open spec fn event_tag() -> Seq<char> {
    seq!['e', 'v', 'e', 'n', 't', ' ']
}

/// One line per event: `event <id> <year> <month> <day> <name length> <name>`, the name
/// taken verbatim (it may hold any character, a line break included).
pub open spec fn enc_event(e: EventView) -> Seq<char> {
    event_tag() + (enc_nat(e.id as nat) + (seq![' '] + enc_event_from_year(e)))
}

pub open spec fn enc_event_from_year(e: EventView) -> Seq<char> {
    enc_year(e.date.year as int) + (seq![' '] + enc_event_from_month(e))
}

pub open spec fn enc_event_from_month(e: EventView) -> Seq<char> {
    enc_nat(e.date.month as nat) + (seq![' '] + enc_event_from_day(e))
}

pub open spec fn enc_event_from_day(e: EventView) -> Seq<char> {
    enc_nat(e.date.day as nat) + (seq![' '] + enc_event_name(e))
}

pub open spec fn enc_event_name(e: EventView) -> Seq<char> {
    enc_nat(e.name.len()) + (seq![' '] + (e.name + seq!['\n']))
}

/// The fields of an event, each at its place from `pos` on.
pub open spec fn event_fields_at(s: Seq<char>, pos: int, e: EventView) -> bool {
    let p1 = pos + 6;
    let p2 = p1 + enc_nat(e.id as nat).len();
    let p3 = p2 + 1;
    let p4 = p3 + enc_year(e.date.year as int).len();
    let p5 = p4 + 1;
    let p6 = p5 + enc_nat(e.date.month as nat).len();
    let p7 = p6 + 1;
    let p8 = p7 + enc_nat(e.date.day as nat).len();
    let p9 = p8 + 1;
    let p10 = p9 + enc_nat(e.name.len()).len();
    let p11 = p10 + 1;
    let p12 = p11 + e.name.len();
    &&& at(s, pos, event_tag())
    &&& nat_at(s, p1, e.id as nat)
    &&& at(s, p2, seq![' '])
    &&& year_at(s, p3, e.date.year as int)
    &&& at(s, p4, seq![' '])
    &&& nat_at(s, p5, e.date.month as nat)
    &&& at(s, p6, seq![' '])
    &&& nat_at(s, p7, e.date.day as nat)
    &&& at(s, p8, seq![' '])
    &&& nat_at(s, p9, e.name.len())
    &&& at(s, p10, seq![' '])
    &&& at(s, p11, e.name)
    &&& at(s, p12, seq!['\n'])
}

proof fn lemma_space_ends_digits(s: Seq<char>, p: int)
    requires
        at(s, p, seq![' ']),
    ensures
        digits_end(s, p),
{
    assert(s.subrange(p, p + 1)[0] == s[p]);
}

proof fn lemma_event_fields(s: Seq<char>, pos: int, e: EventView)
    ensures
        at(s, pos, enc_event(e)) == event_fields_at(s, pos, e),
{
    let a1 = enc_nat(e.id as nat);
    let a3 = enc_year(e.date.year as int);
    let a5 = enc_nat(e.date.month as nat);
    let a7 = enc_nat(e.date.day as nat);
    let a9 = enc_nat(e.name.len());
    let sp = seq![' '];
    let t11 = e.name + seq!['\n'];
    let t10 = sp + t11;
    let t9 = enc_event_name(e);
    let t8 = sp + t9;
    let t7 = enc_event_from_day(e);
    let t6 = sp + t7;
    let t5 = enc_event_from_month(e);
    let t4 = sp + t5;
    let t3 = enc_event_from_year(e);
    let t2 = sp + t3;
    let t1 = a1 + t2;
    let p1 = pos + 6;
    let p2 = p1 + a1.len();
    let p3 = p2 + 1;
    let p4 = p3 + a3.len();
    let p5 = p4 + 1;
    let p6 = p5 + a5.len();
    let p7 = p6 + 1;
    let p8 = p7 + a7.len();
    let p9 = p8 + 1;
    let p10 = p9 + a9.len();
    let p11 = p10 + 1;
    lemma_at_concat(s, pos, event_tag(), t1);
    lemma_at_concat(s, p1, a1, t2);
    lemma_at_concat(s, p2, sp, t3);
    lemma_at_concat(s, p3, a3, t4);
    lemma_at_concat(s, p4, sp, t5);
    lemma_at_concat(s, p5, a5, t6);
    lemma_at_concat(s, p6, sp, t7);
    lemma_at_concat(s, p7, a7, t8);
    lemma_at_concat(s, p8, sp, t9);
    lemma_at_concat(s, p9, a9, t10);
    lemma_at_concat(s, p10, sp, t11);
    lemma_at_concat(s, p11, e.name, seq!['\n']);
    if at(s, pos, enc_event(e)) {
        lemma_space_ends_digits(s, p2);
        lemma_space_ends_digits(s, p4);
        lemma_space_ends_digits(s, p6);
        lemma_space_ends_digits(s, p8);
        lemma_space_ends_digits(s, p10);
    }
}

fn write_event(out: &mut String, e: &Event)
    ensures
        final(out)@ == old(out)@ + enc_event(e@),
{
    proof {
        reveal_strlit("event ");
        reveal_strlit(" ");
        reveal_strlit("\n");
    }
    out.append("event ");
    write_nat(out, e.id);
    out.append(" ");
    let ghost a = out@;
    write_year(out, e.date.year);
    out.append(" ");
    let ghost b = out@;
    write_nat(out, e.date.month as u64);
    out.append(" ");
    let ghost c = out@;
    write_nat(out, e.date.day as u64);
    out.append(" ");
    let ghost d = out@;
    let n = e.name.as_str().unicode_len();
    write_nat(out, n as u64);
    out.append(" ");
    out.append(e.name.as_str());
    out.append("\n");
    assert(out@ =~= d + enc_event_name(e@));
    assert(out@ =~= c + enc_event_from_day(e@));
    assert(out@ =~= b + enc_event_from_month(e@));
    assert(out@ =~= a + enc_event_from_year(e@));
    assert(final(out)@ =~= old(out)@ + enc_event(e@));
}

/// Reads one event line with a valid date.
#[verifier::spinoff_prover]
#[verifier::rlimit(100)]
fn parse_event(s: &str, pos: usize) -> (r: Option<(Event, usize)>)
    requires
        pos <= s@.len(),
    ensures
        r matches Some((e, n)) ==> e.date.wf() && at(s@, pos as int, enc_event(e@)) && n == pos
            + enc_event(e@).len(),
        forall|ev: EventView|
            ev.date.wf() && #[trigger] at(s@, pos as int, enc_event(ev)) ==> (r matches Some((e, n))
                && e@ == ev && n == pos + enc_event(ev).len()),
{
    proof {
        reveal_strlit("event ");
        reveal_strlit(" ");
        reveal_strlit("\n");
        assert("event "@ =~= event_tag());
        assert(" "@ =~= seq![' ']);
        assert("\n"@ =~= seq!['\n']);
    }
    let len = s.unicode_len();
    if !lit_at(s, pos, "event ") {
        assert forall|ev: EventView| ev.date.wf() && #[trigger] at(s@, pos as int, enc_event(ev)) implies false by {
            lemma_event_fields(s@, pos as int, ev);
        }
        return None;
    }
    let p1 = pos + 6;
    let (id, p2) = match parse_nat(s, p1) {
        Some(x) => x,
        None => {
            assert forall|ev: EventView| ev.date.wf() && #[trigger] at(s@, pos as int, enc_event(ev)) implies false by {
                lemma_event_fields(s@, pos as int, ev);
            }
            return None;
        },
    };
    if !lit_at(s, p2, " ") {
        assert forall|ev: EventView| ev.date.wf() && #[trigger] at(s@, pos as int, enc_event(ev)) implies false by {
            lemma_event_fields(s@, pos as int, ev);
        }
        return None;
    }
    let p3 = p2 + 1;
    let (year, p4) = match parse_year(s, p3) {
        Some(x) => x,
        None => {
            assert forall|ev: EventView| ev.date.wf() && #[trigger] at(s@, pos as int, enc_event(ev)) implies false by {
                lemma_event_fields(s@, pos as int, ev);
            }
            return None;
        },
    };
    if !lit_at(s, p4, " ") {
        assert forall|ev: EventView| ev.date.wf() && #[trigger] at(s@, pos as int, enc_event(ev)) implies false by {
            lemma_event_fields(s@, pos as int, ev);
        }
        return None;
    }
    let p5 = p4 + 1;
    let (month, p6) = match parse_nat(s, p5) {
        Some(x) => x,
        None => {
            assert forall|ev: EventView| ev.date.wf() && #[trigger] at(s@, pos as int, enc_event(ev)) implies false by {
                lemma_event_fields(s@, pos as int, ev);
                assert(nat_at(s@, p5 as int, ev.date.month as u64 as nat));
            }
            return None;
        },
    };
    if !lit_at(s, p6, " ") {
        assert forall|ev: EventView| ev.date.wf() && #[trigger] at(s@, pos as int, enc_event(ev)) implies false by {
            lemma_event_fields(s@, pos as int, ev);
            assert(nat_at(s@, p5 as int, ev.date.month as u64 as nat));
        }
        return None;
    }
    let p7 = p6 + 1;
    let (day, p8) = match parse_nat(s, p7) {
        Some(x) => x,
        None => {
            assert forall|ev: EventView| ev.date.wf() && #[trigger] at(s@, pos as int, enc_event(ev)) implies false by {
                lemma_event_fields(s@, pos as int, ev);
                assert(nat_at(s@, p5 as int, ev.date.month as u64 as nat));
                assert(nat_at(s@, p7 as int, ev.date.day as u64 as nat));
            }
            return None;
        },
    };
    if !lit_at(s, p8, " ") {
        assert forall|ev: EventView| ev.date.wf() && #[trigger] at(s@, pos as int, enc_event(ev)) implies false by {
            lemma_event_fields(s@, pos as int, ev);
            assert(nat_at(s@, p5 as int, ev.date.month as u64 as nat));
            assert(nat_at(s@, p7 as int, ev.date.day as u64 as nat));
        }
        return None;
    }
    let p9 = p8 + 1;
    let (name_len, p10) = match parse_nat(s, p9) {
        Some(x) => x,
        None => {
            assert forall|ev: EventView| ev.date.wf() && #[trigger] at(s@, pos as int, enc_event(ev)) implies false by {
                lemma_event_fields(s@, pos as int, ev);
                assert(nat_at(s@, p5 as int, ev.date.month as u64 as nat));
                assert(nat_at(s@, p7 as int, ev.date.day as u64 as nat));
                assert(nat_at(s@, p9 as int, ev.name.len() as u64 as nat));
            }
            return None;
        },
    };
    if !lit_at(s, p10, " ") || name_len > (len - (p10 + 1)) as u64 {
        assert forall|ev: EventView| ev.date.wf() && #[trigger] at(s@, pos as int, enc_event(ev)) implies false by {
            lemma_event_fields(s@, pos as int, ev);
            assert(nat_at(s@, p5 as int, ev.date.month as u64 as nat));
            assert(nat_at(s@, p7 as int, ev.date.day as u64 as nat));
            assert(nat_at(s@, p9 as int, ev.name.len() as u64 as nat));
        }
        return None;
    }
    let p11 = p10 + 1;
    let p12 = p11 + name_len as usize;
    let name = s.substring_char(p11, p12).to_owned();
    if !lit_at(s, p12, "\n") || month < 1 || month > 12 || day > 31 {
        assert forall|ev: EventView| ev.date.wf() && #[trigger] at(s@, pos as int, enc_event(ev)) implies false by {
            lemma_event_fields(s@, pos as int, ev);
            assert(nat_at(s@, p5 as int, ev.date.month as u64 as nat));
            assert(nat_at(s@, p7 as int, ev.date.day as u64 as nat));
            assert(nat_at(s@, p9 as int, ev.name.len() as u64 as nat));
        }
        return None;
    }
    let date = match Date::from_ymd(year, month as u32, day as u32) {
        Some(d) => d,
        None => {
            assert forall|ev: EventView| ev.date.wf() && #[trigger] at(s@, pos as int, enc_event(ev)) implies false by {
                lemma_event_fields(s@, pos as int, ev);
                assert(nat_at(s@, p5 as int, ev.date.month as u64 as nat));
                assert(nat_at(s@, p7 as int, ev.date.day as u64 as nat));
                assert(nat_at(s@, p9 as int, ev.name.len() as u64 as nat));
            }
            return None;
        },
    };
    let e = Event { name, date, id };
    proof {
        assert(name@ == s@.subrange(p11 as int, p12 as int));
        lemma_event_fields(s@, pos as int, e@);
        assert(event_fields_at(s@, pos as int, e@));
        assert forall|ev: EventView| ev.date.wf() && #[trigger] at(s@, pos as int, enc_event(ev)) implies ev == e@ by {
            lemma_event_fields(s@, pos as int, ev);
            assert(nat_at(s@, p5 as int, ev.date.month as u64 as nat));
            assert(nat_at(s@, p7 as int, ev.date.day as u64 as nat));
            assert(nat_at(s@, p9 as int, ev.name.len() as u64 as nat));
            assert(ev.name == s@.subrange(p11 as int, p12 as int));
        }
    }
    Some((e, p12 + 1))
}

pub open spec fn current_tag() -> Seq<char> {
    seq!['c', 'u', 'r', 'r', 'e', 'n', 't', ' ']
}

/// First line of a planner's text: the generator's current value.
pub open spec fn enc_header(current: u64) -> Seq<char> {
    current_tag() + (enc_nat(current as nat) + seq!['\n'])
}

pub open spec fn enc_events(events: Seq<EventView>) -> Seq<char>
    decreases events.len(),
{
    if events.len() == 0 {
        Seq::empty()
    } else {
        enc_events(events.drop_last()) + enc_event(events.last())
    }
}

/// The text a planner is stored as: its header, then one line per event, in order.
pub open spec fn encode(p: PlannerView) -> Seq<char> {
    enc_header(p.current) + enc_events(p.events)
}

/// `r` is what loading `s` gives: the one well-formed planner whose text `s` is, or
/// `LoadFailure` when there is none.
pub open spec fn loaded_from(s: Seq<char>, r: Result<Planner, PlannerError>) -> bool {
    &&& r matches Ok(p) ==> p.wf() && encode(p@) == s
    &&& r matches Err(e) ==> e == PlannerError::LoadFailure
    &&& forall|q: PlannerView| q.wf() && #[trigger] encode(q) == s ==> (r matches Ok(p) && p@ == q)
}

proof fn lemma_enc_events_prefix(es: Seq<EventView>, k: int)
    requires
        0 <= k <= es.len(),
    ensures
        enc_events(es.take(k)).len() <= enc_events(es).len(),
        enc_events(es).subrange(0, enc_events(es.take(k)).len() as int) == enc_events(es.take(k)),
        k < es.len() ==> enc_events(es.take(k)).len() < enc_events(es).len(),
    decreases es.len(),
{
    if k == es.len() {
        assert(es.take(k) =~= es);
    } else {
        let p = es.drop_last();
        assert(es.take(k) =~= p.take(k));
        lemma_enc_events_prefix(p, k);
        let a = enc_events(p);
        let b = enc_event(es.last());
        assert(enc_events(es) == a + b);
        assert((a + b).subrange(0, enc_events(p.take(k)).len() as int) =~= a.subrange(
            0,
            enc_events(p.take(k)).len() as int,
        ));
    }
}

proof fn lemma_enc_events_push(es: Seq<EventView>, e: EventView)
    ensures
        enc_events(es.push(e)) == enc_events(es) + enc_event(e),
{
    assert(es.push(e).drop_last() =~= es);
}

proof fn lemma_event_in_encoding(q: PlannerView, k: int)
    requires
        0 <= k < q.events.len(),
    ensures
        at(
            encode(q),
            (enc_header(q.current).len() + enc_events(q.events.take(k)).len()) as int,
            enc_event(q.events[k]),
        ),
{
    let s = encode(q);
    let h = enc_header(q.current);
    let a = enc_events(q.events.take(k));
    let b = enc_event(q.events[k]);
    assert(q.events.take(k + 1) =~= q.events.take(k).push(q.events[k]));
    lemma_enc_events_push(q.events.take(k), q.events[k]);
    lemma_enc_events_prefix(q.events, k + 1);
    let all = enc_events(q.events);
    assert(s.subrange(0, (h.len() + a.len() + b.len()) as int) =~= h + (a + b));
    lemma_at_concat(s, 0, h, a + b);
    lemma_at_concat(s, h.len() as int, a, b);
}

proof fn lemma_header_fields(s: Seq<char>, c: u64)
    ensures
        at(s, 0, enc_header(c)) ==> at(s, 0, current_tag()) && nat_at(s, 8, c as nat) && at(
            s,
            8 + enc_nat(c as nat).len() as int,
            seq!['\n'],
        ),
        at(s, 0, current_tag()) && at(s, 8, enc_nat(c as nat)) && at(
            s,
            8 + enc_nat(c as nat).len() as int,
            seq!['\n'],
        ) ==> at(s, 0, enc_header(c)),
{
    lemma_at_concat(s, 0, current_tag(), enc_nat(c as nat) + seq!['\n']);
    lemma_at_concat(s, 8, enc_nat(c as nat), seq!['\n']);
    let p = 8 + enc_nat(c as nat).len() as int;
    if at(s, p, seq!['\n']) {
        assert(s.subrange(p, p + 1)[0] == s[p]);
    }
}

proof fn lemma_encode_starts_with_header(q: PlannerView)
    ensures
        at(encode(q), 0, enc_header(q.current)),
{
    let h = enc_header(q.current);
    assert(encode(q).subrange(0, h.len() as int) =~= h);
}

/// Whether the identifiers are positive, at most `current` and pairwise distinct.
fn ids_valid(events: &Vec<Event>, current: u64) -> (r: bool)
    requires
        forall|i: int| 0 <= i < events@.len() ==> (#[trigger] events@[i]).date.wf(),
    ensures
        r == events_wf(events_view(events@), current),
{
    let ghost evs = events_view(events@);
    let mut i: usize = 0;
    while i < events.len()
        invariant
            evs == events_view(events@),
            i <= events.len(),
            events_wf(evs.take(i as int), current),
            forall|k: int| 0 <= k < events@.len() ==> (#[trigger] events@[k]).date.wf(),
        decreases events.len() - i,
    {
        let id = events[i].id;
        if id < 1 || id > current {
            assert(evs[i as int].id == id);
            return false;
        }
        let mut j: usize = 0;
        while j < i
            invariant
                evs == events_view(events@),
                j <= i < events.len(),
                id == evs[i as int].id,
                forall|k: int| 0 <= k < j ==> evs[k].id != id,
            decreases i - j,
        {
            if events[j].id == id {
                assert(evs[j as int].id == evs[i as int].id);
                return false;
            }
            j = j + 1;
        }
        proof {
            let t = evs.take(i + 1);
            assert(forall|k: int| 0 <= k < i ==> t[k] == evs.take(i as int)[k]);
            assert(forall|a: int, b: int|
                0 <= a < t.len() && 0 <= b < t.len() && a != b ==> #[trigger] t[a].id
                    != #[trigger] t[b].id) by {
                assert forall|a: int, b: int|
                    0 <= a < t.len() && 0 <= b < t.len() && a != b implies #[trigger] t[a].id
                        != #[trigger] t[b].id by {
                    if a < i && b < i {
                        assert(evs.take(i as int)[a].id != evs.take(i as int)[b].id);
                    }
                }
            }
        }
        i = i + 1;
    }
    assert(evs.take(i as int) =~= evs);
    true
}

/// Reads a planner back from its text.
#[verifier::spinoff_prover]
#[verifier::rlimit(100)]
fn decode(s: &str) -> (r: Result<Planner, PlannerError>)
    ensures
        loaded_from(s@, r),
{
    proof {
        reveal_strlit("current ");
        reveal_strlit("\n");
        assert("current "@ =~= current_tag());
        assert("\n"@ =~= seq!['\n']);
    }
    let len = s.unicode_len();
    if !lit_at(s, 0, "current ") {
        assert forall|q: PlannerView| q.wf() && #[trigger] encode(q) == s@ implies false by {
            lemma_encode_starts_with_header(q);
            lemma_header_fields(s@, q.current);
        }
        return Err(PlannerError::LoadFailure);
    }
    let (current, p1) = match parse_nat(s, 8) {
        Some(x) => x,
        None => {
            assert forall|q: PlannerView| q.wf() && #[trigger] encode(q) == s@ implies false by {
                lemma_encode_starts_with_header(q);
                lemma_header_fields(s@, q.current);
            }
            return Err(PlannerError::LoadFailure);
        },
    };
    if !lit_at(s, p1, "\n") {
        assert forall|q: PlannerView| q.wf() && #[trigger] encode(q) == s@ implies false by {
            lemma_encode_starts_with_header(q);
            lemma_header_fields(s@, q.current);
        }
        return Err(PlannerError::LoadFailure);
    }
    let mut pos: usize = p1 + 1;
    let mut events: Vec<Event> = Vec::new();
    proof {
        lemma_header_fields(s@, current);
        assert(events_view(events@) =~= Seq::<EventView>::empty());
        assert(s@.subrange(0, pos as int) =~= enc_header(current));
        assert forall|q: PlannerView| q.wf() && #[trigger] encode(q) == s@ implies q.current == current
            && q.events.take(0) == events_view(events@) && pos == enc_header(q.current).len() + enc_events(
            q.events.take(0),
        ).len() by {
            lemma_encode_starts_with_header(q);
            lemma_header_fields(s@, q.current);
            assert(q.events.take(0) =~= Seq::<EventView>::empty());
        }
    }
    while pos < len
        invariant
            len == s@.len(),
            pos <= len,
            s@.subrange(0, pos as int) == enc_header(current) + enc_events(events_view(events@)),
            forall|i: int| 0 <= i < events@.len() ==> (#[trigger] events@[i]).date.wf(),
            forall|q: PlannerView| #[trigger] encode(q) == s@ && q.wf() ==> q.current == current
                && events@.len() <= q.events.len() && q.events.take(events@.len() as int)
                == events_view(events@) && pos == enc_header(q.current).len() + enc_events(
                q.events.take(events@.len() as int),
            ).len(),
        decreases len - pos,
    {
        let ghost k = events@.len() as int;
        let ghost before = events_view(events@);
        proof {
            assert forall|q: PlannerView| #[trigger] encode(q) == s@ && q.wf() implies k < q.events.len()
                && at(s@, pos as int, enc_event(q.events[k])) by {
                if k == q.events.len() {
                    assert(q.events.take(k) =~= q.events);
                }
                lemma_event_in_encoding(q, k);
            }
        }
        match parse_event(s, pos) {
            None => {
                assert forall|q: PlannerView| q.wf() && #[trigger] encode(q) == s@ implies false by {
                    assert(q.events[k].date.wf());
                }
                return Err(PlannerError::LoadFailure);
            },
            Some((e, n)) => {
                let ghost ev = e@;
                events.push(e);
                proof {
                    assert(events_view(events@) =~= before.push(ev));
                    lemma_enc_events_push(before, ev);
                    assert(s@.subrange(0, n as int) =~= s@.subrange(0, pos as int) + s@.subrange(
                        pos as int,
                        n as int,
                    ));
                    assert forall|q: PlannerView| #[trigger] encode(q) == s@ && q.wf() implies q.events.take(
                        k + 1,
                    ) == events_view(events@) && n == enc_header(q.current).len() + enc_events(
                        q.events.take(k + 1),
                    ).len() by {
                        assert(q.events[k].date.wf());
                        assert(q.events.take(k + 1) =~= q.events.take(k).push(q.events[k]));
                        lemma_enc_events_push(q.events.take(k), q.events[k]);
                    }
                }
                pos = n;
            },
        }
    }
    proof {
        assert(s@.subrange(0, len as int) =~= s@);
        assert forall|q: PlannerView| #[trigger] encode(q) == s@ && q.wf() implies q.events
            == events_view(events@) by {
            lemma_enc_events_prefix(q.events, events@.len() as int);
            assert(q.events.take(q.events.len() as int) =~= q.events);
        }
    }
    if !ids_valid(&events, current) {
        return Err(PlannerError::LoadFailure);
    }
    let p = Planner { events, id_generator: IDGenerator { curr: current } };
    assert(p@.events == events_view(p.events@));
    Ok(p)
}

impl Planner {
    /// The text this planner is stored as.
    pub fn save(&self) -> (r: String)
        ensures
            r@ == encode(self@),
    {
        let mut out = String::new();
        proof {
            reveal_strlit("current ");
            reveal_strlit("\n");
        }
        out.append("current ");
        write_nat(&mut out, self.id_generator.curr);
        out.append("\n");
        let ghost evs = self@.events;
        assert(out@ =~= enc_header(self.id_generator.curr) + enc_events(evs.take(0)));
        let mut i: usize = 0;
        while i < self.events.len()
            invariant
                evs == self@.events,
                i <= self.events.len(),
                out@ == enc_header(self.id_generator.curr) + enc_events(evs.take(i as int)),
            decreases self.events.len() - i,
        {
            write_event(&mut out, &self.events[i]);
            proof {
                assert(evs.take(i + 1) =~= evs.take(i as int).push(evs[i as int]));
                lemma_enc_events_push(evs.take(i as int), evs[i as int]);
            }
            i = i + 1;
        }
        assert(evs.take(i as int) =~= evs);
        out
    }

    /// The planner stored as `text`; a new, empty planner where nothing is stored yet.
    pub fn load(text: Option<&str>) -> (r: Result<Planner, PlannerError>)
        ensures
            match text {
                None => r matches Ok(p) && p@ == PlannerView::empty() && p.wf(),
                Some(s) => loaded_from(s@, r),
            },
    {
        match text {
            None => Ok(Planner::new()),
            Some(s) => decode(s),
        }
    }
}

/// Saving a well-formed planner and loading the saved text gives the same planner back.
pub proof fn lemma_save_load_round_trip(p: Planner, text: Seq<char>, r: Result<Planner, PlannerError>)
    requires
        p.wf(),
        text == encode(p@),
        loaded_from(text, r),
    ensures
        r matches Ok(q) && q@ == p@,
{
}

} // verus!
