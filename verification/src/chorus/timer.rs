//! Timer labels of a Chorus instance. A label names the timer's kind and the slot it
//! belongs to, `<kind>#<slot>`, so a node running many instances can route a fired timer
//! back to its slot.

use crate::types::Slot;
use vstd::prelude::*;
use vstd::string::*;

verus! {

#[derive(Debug, Clone, Copy, PartialEq, Eq, Structural)]
pub enum TimerKind {
    Disseminate,
    Deadline,
    FallbackTimeout,
}

pub open spec fn kind_word(k: TimerKind) -> Seq<char> {
    match k {
        TimerKind::Disseminate => "disseminate"@,
        TimerKind::Deadline => "deadline"@,
        TimerKind::FallbackTimeout => "fallback_timeout"@,
    }
}

pub open spec fn digit_char(d: nat) -> char {
    (48 + d) as char
}

/// The decimal digits of `n`, most significant first.
pub open spec fn decimal(n: nat) -> Seq<char>
    decreases n,
{
    if n < 10 {
        seq![digit_char(n)]
    } else {
        decimal(n / 10).push(digit_char(n % 10))
    }
}

/// The label of timer `k` of the instance for `slot`.
pub open spec fn timer_label_spec(k: TimerKind, slot: Slot) -> Seq<char> {
    kind_word(k).push('#') + decimal(slot as nat)
}

/// The index of the last `#` in `s`, or -1.
pub open spec fn last_hash(s: Seq<char>) -> int
    decreases s.len(),
{
    if s.len() == 0 {
        -1
    } else if s.last() == '#' {
        s.len() - 1
    } else {
        last_hash(s.drop_last())
    }
}

pub open spec fn is_digit(c: char) -> bool {
    '0' <= c && c <= '9'
}

pub open spec fn digits_value(s: Seq<char>) -> nat
    decreases s.len(),
{
    if s.len() == 0 {
        0
    } else {
        digits_value(s.drop_last()) * 10 + ((s.last() as nat) - 48) as nat
    }
}

/// The slot a label names: the decimal number after its last `#`, if that is all digits
/// and fits in a `u64`.
pub open spec fn parse_timer_slot(s: Seq<char>) -> Option<Slot> {
    let h = last_hash(s);
    let tail = s.skip(h + 1);
    if h >= 0 && tail.len() > 0 && (forall|i: int| 0 <= i < tail.len() ==> is_digit(#[trigger] tail[i]))
        && digits_value(tail) <= u64::MAX {
        Some(digits_value(tail) as u64)
    } else {
        None
    }
}

fn digit_str(d: u64) -> (s: &'static str)
    requires
        d < 10,
    ensures
        s@ == seq![digit_char(d as nat)],
{
    proof {
        reveal_strlit("0");
        reveal_strlit("1");
        reveal_strlit("2");
        reveal_strlit("3");
        reveal_strlit("4");
        reveal_strlit("5");
        reveal_strlit("6");
        reveal_strlit("7");
        reveal_strlit("8");
        reveal_strlit("9");
    }
    let s = match d {
        0 => "0",
        1 => "1",
        2 => "2",
        3 => "3",
        4 => "4",
        5 => "5",
        6 => "6",
        7 => "7",
        8 => "8",
        _ => "9",
    };
    assert(s@ =~= seq![digit_char(d as nat)]);
    s
}

fn append_decimal(s: &mut String, n: u64)
    ensures
        final(s)@ == old(s)@ + decimal(n as nat),
    decreases n,
{
    if n >= 10 {
        append_decimal(s, n / 10);
    }
    s.append(digit_str(n % 10));
    assert(decimal(n as nat) == if n < 10 {
        seq![digit_char(n as nat)]
    } else {
        decimal((n / 10) as nat).push(digit_char((n % 10) as nat))
    });
    if n >= 10 {
        assert(final(s)@ =~= old(s)@ + decimal(n as nat));
    } else {
        assert(final(s)@ =~= old(s)@ + decimal(n as nat));
    }
}

/// The bare name of timer `kind`, as a stand-alone validator labels it.
pub fn timer_name(kind: TimerKind) -> (s: String)
    ensures
        s@ == kind_word(kind),
{
    let word = match kind {
        TimerKind::Disseminate => "disseminate",
        TimerKind::Deadline => "deadline",
        TimerKind::FallbackTimeout => "fallback_timeout",
    };
    String::from_str(word)
}

/// The label of timer `kind` of the instance for `slot`.
pub fn timer_label(kind: TimerKind, slot: Slot) -> (s: String)
    ensures
        s@ == timer_label_spec(kind, slot),
{
    let word = match kind {
        TimerKind::Disseminate => "disseminate",
        TimerKind::Deadline => "deadline",
        TimerKind::FallbackTimeout => "fallback_timeout",
    };
    let mut s = String::from_str(word);
    proof {
        reveal_strlit("#");
    }
    s.append("#");
    append_decimal(&mut s, slot);
    assert(s@ =~= timer_label_spec(kind, slot));
    s
}

proof fn lemma_decimal_digits(n: nat)
    ensures
        decimal(n).len() > 0,
        forall|i: int| 0 <= i < decimal(n).len() ==> is_digit(#[trigger] decimal(n)[i]),
        forall|i: int| 0 <= i < decimal(n).len() ==> #[trigger] decimal(n)[i] != '#',
        digits_value(decimal(n)) == n,
    decreases n,
{
    let last = digit_char(n % 10);
    assert(last as nat == 48 + n % 10);
    if n >= 10 {
        lemma_decimal_digits(n / 10);
        let d = decimal(n / 10);
        assert(decimal(n).drop_last() =~= d);
        assert(decimal(n).last() == last);
        assert(n == (n / 10) * 10 + n % 10);
        assert(digits_value(decimal(n)) == digits_value(d) * 10 + ((last as nat) - 48) as nat);
        assert forall|i: int| 0 <= i < decimal(n).len() implies is_digit(#[trigger] decimal(n)[i]) && decimal(n)[i] != '#' by {
            if i < d.len() {
                assert(decimal(n)[i] == d[i]);
            }
        }
    } else {
        assert(decimal(n).drop_last() =~= Seq::<char>::empty());
        assert(digits_value(decimal(n)) == digits_value(Seq::<char>::empty()) * 10 + ((last as nat) - 48) as nat);
    }
}

proof fn lemma_last_hash_of_suffix(a: Seq<char>, b: Seq<char>)
    requires
        a.len() > 0,
        a.last() == '#',
        forall|i: int| 0 <= i < b.len() ==> #[trigger] b[i] != '#',
    ensures
        last_hash(a + b) == a.len() - 1,
    decreases b.len(),
{
    if b.len() == 0 {
        assert(a + b =~= a);
    } else {
        assert((a + b).drop_last() =~= a + b.drop_last());
        assert((a + b).last() == b.last());
        lemma_last_hash_of_suffix(a, b.drop_last());
    }
}

/// The labels of the three timers of a slot differ from one another, and so do their
/// bare names.
pub proof fn lemma_timer_labels_distinct(slot: Slot)
    ensures
        timer_label_spec(TimerKind::Disseminate, slot) != timer_label_spec(TimerKind::Deadline, slot),
        timer_label_spec(TimerKind::Disseminate, slot) != timer_label_spec(TimerKind::FallbackTimeout, slot),
        timer_label_spec(TimerKind::Deadline, slot) != timer_label_spec(TimerKind::FallbackTimeout, slot),
        kind_word(TimerKind::Disseminate) != kind_word(TimerKind::Deadline),
        kind_word(TimerKind::Disseminate) != kind_word(TimerKind::FallbackTimeout),
        kind_word(TimerKind::Deadline) != kind_word(TimerKind::FallbackTimeout),
{
    reveal_strlit("disseminate");
    reveal_strlit("deadline");
    reveal_strlit("fallback_timeout");
    assert(kind_word(TimerKind::Disseminate)[1] == 'i');
    assert(kind_word(TimerKind::Deadline)[1] == 'e');
    assert(kind_word(TimerKind::FallbackTimeout)[0] == 'f');
    assert(kind_word(TimerKind::Deadline)[0] == 'd');
    assert(timer_label_spec(TimerKind::Disseminate, slot)[1] == 'i');
    assert(timer_label_spec(TimerKind::Deadline, slot)[1] == 'e');
    assert(timer_label_spec(TimerKind::FallbackTimeout, slot)[0] == 'f');
    assert(timer_label_spec(TimerKind::Deadline, slot)[0] == 'd');
}

/// A timer label names its own slot: parsing the label of `(kind, slot)` gives `slot`.
pub proof fn law_timer_label_round_trip(kind: TimerKind, slot: Slot)
    ensures
        parse_timer_slot(timer_label_spec(kind, slot)) == Some(slot),
{
    let a = kind_word(kind).push('#');
    let b = decimal(slot as nat);
    lemma_decimal_digits(slot as nat);
    lemma_last_hash_of_suffix(a, b);
    assert((a + b).skip(a.len() as int) =~= b);
}

/// The slot named by a timer label.
pub fn timer_slot(label: &str) -> (r: Option<Slot>)
    ensures
        r == parse_timer_slot(label@),
{
    let n = label.unicode_len();
    let mut h: usize = n;
    assert(label@.take(n as int) =~= label@);
    while h > 0 && label.get_char(h - 1) != '#'
        invariant
            h <= n,
            n == label@.len(),
            last_hash(label@) == last_hash(label@.take(h as int)),
        decreases h,
    {
        assert(label@.take(h as int).drop_last() =~= label@.take(h as int - 1));
        h = h - 1;
    }
    if h == 0 {
        assert(label@.take(0) =~= Seq::<char>::empty());
        return None;
    }
    assert(label@.take(h as int).last() == '#');
    assert(last_hash(label@) == h - 1);
    let ghost tail = label@.skip(h as int);
    assert(label@.skip(last_hash(label@) + 1) == tail);
    if h == n {
        return None;
    }
    let mut v: u64 = 0;
    let mut i: usize = h;
    while i < n
        invariant
            h <= i <= n,
            1 <= h,
            n == label@.len(),
            last_hash(label@) == h - 1,
            tail == label@.skip(h as int),
            forall|j: int| 0 <= j < i - h ==> is_digit(#[trigger] tail[j]),
            v as nat == digits_value(tail.take(i - h)),
        decreases n - i,
    {
        let c = label.get_char(i);
        if c < '0' || c > '9' {
            assert(tail[i - h] == c);
            assert(!is_digit(tail[i - h]));
            assert(!(forall|k: int| 0 <= k < tail.len() ==> is_digit(#[trigger] tail[k])));
            assert(parse_timer_slot(label@) is None);
            return None;
        }
        let d = (c as u32 - 48) as u64;
        assert(tail.take(i - h + 1).drop_last() =~= tail.take(i - h));
        assert(tail.take(i - h + 1).last() == c);
        if v > (u64::MAX - d) / 10 {
            proof {
                assert(digits_value(tail.take(i - h + 1)) > u64::MAX) by (nonlinear_arith)
                    requires
                        digits_value(tail.take(i - h + 1)) == v * 10 + d,
                        v > (u64::MAX - d) / 10,
                        d < 10,
                ;
                lemma_digits_value_prefix_bound(tail, i - h + 1);
                assert(digits_value(tail) > u64::MAX);
                assert(parse_timer_slot(label@) is None);
            }
            return None;
        }
        assert(v * 10 + d <= u64::MAX) by (nonlinear_arith)
            requires
                v <= (u64::MAX - d) / 10,
                d < 10,
        ;
        v = v * 10 + d;
        i = i + 1;
    }
    assert(tail.take(n - h) =~= tail);
    Some(v)
}

proof fn lemma_digits_value_prefix_bound(s: Seq<char>, k: int)
    requires
        0 <= k <= s.len(),
    ensures
        digits_value(s.take(k)) <= digits_value(s),
    decreases s.len() - k,
{
    if k < s.len() {
        lemma_digits_value_prefix_bound(s, k + 1);
        assert(s.take(k + 1).drop_last() =~= s.take(k));
    } else {
        assert(s.take(k) =~= s);
    }
}

} // verus!
