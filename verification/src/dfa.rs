//! Rules that generate byte strings, and the search for the cheapest rule that
//! generates a given one.

use vstd::prelude::*;

use crate::bytes::copy_of;
use crate::bytes::copy_range;
use crate::bytes::extend;
use crate::varint::lemma_varint_len_grows;
use crate::varint::varint;
use crate::varint::varint_len;

verus! {

/// The longest period that is looked for.
pub const MAX_PERIOD: usize = 32;

/// A rule that generates a byte string.
#[derive(Clone, Debug)]
pub enum DfaKind {
    /// The bytes themselves.
    Raw(Vec<u8>),
    /// One byte, so many times.
    Constant(u8, usize),
    /// A first byte and a step, so many bytes long.
    Arithmetic(u8, u8, usize),
    /// Two bytes in turn, so many bytes long.
    Alternating(u8, u8, usize),
    /// A byte string, so many times.
    Periodic(Vec<u8>, usize),
}

/// The mathematical value of a [`DfaKind`].
pub enum Rule {
    Raw(Seq<u8>),
    Constant(u8, usize),
    Arithmetic(u8, u8, usize),
    Alternating(u8, u8, usize),
    Periodic(Seq<u8>, usize),
}

impl View for DfaKind {
    type V = Rule;

    open spec fn view(&self) -> Rule {
        match *self {
            DfaKind::Raw(d) => Rule::Raw(d@),
            DfaKind::Constant(v, n) => Rule::Constant(v, n),
            DfaKind::Arithmetic(s, st, n) => Rule::Arithmetic(s, st, n),
            DfaKind::Alternating(a, b, n) => Rule::Alternating(a, b, n),
            DfaKind::Periodic(p, r) => Rule::Periodic(p@, r),
        }
    }
}

/// `p`, repeated `r` times.
pub open spec fn repeated(p: Seq<u8>, r: nat) -> Seq<u8> {
    Seq::new(p.len() * r, |i: int| p[i % p.len() as int])
}

/// The byte string that a rule generates.
pub open spec fn generated(rule: Rule) -> Seq<u8> {
    match rule {
        Rule::Raw(d) => d,
        Rule::Constant(v, n) => Seq::new(n as nat, |i: int| v),
        Rule::Arithmetic(s, st, n) => Seq::new(n as nat, |i: int| ((s + st * i) % 256) as u8),
        Rule::Alternating(a, b, n) => Seq::new(
            n as nat,
            |i: int|
                if i % 2 == 0 {
                    a
                } else {
                    b
                },
        ),
        Rule::Periodic(p, r) => repeated(p, r as nat),
    }
}

/// How many bytes a rule is taken to cost in a stream.
pub open spec fn rule_cost(rule: Rule) -> nat {
    match rule {
        Rule::Raw(d) => d.len(),
        Rule::Constant(_, n) => 1 + varint(n as nat).len(),
        Rule::Arithmetic(_, _, n) => 2 + varint(n as nat).len(),
        Rule::Alternating(_, _, n) => 2 + varint(n as nat).len(),
        Rule::Periodic(p, r) => varint(p.len()).len() + p.len() + varint(r as nat).len(),
    }
}

/// The cheaper of two rules for `data`: `found`, unless `next` generates `data`
/// too and costs less.
pub open spec fn cheaper(found: Rule, next: Rule, data: Seq<u8>) -> Rule {
    if generated(next) == data && rule_cost(next) < rule_cost(found) {
        next
    } else {
        found
    }
}

/// Whether `data` is its first `p` bytes over and over.
pub open spec fn has_period(data: Seq<u8>, p: int) -> bool {
    &&& 1 <= p <= data.len()
    &&& data.len() as int % p == 0
    &&& generated(period_rule(data, p)) == data
}

/// The rule that repeats the first `p` bytes of `data` to its length.
pub open spec fn period_rule(data: Seq<u8>, p: int) -> Rule {
    Rule::Periodic(data.subrange(0, p), (data.len() as int / p) as usize)
}

/// The longest period that comes into question for `n` bytes.
pub open spec fn period_limit(n: int) -> int {
    if n / 2 < MAX_PERIOD {
        n / 2
    } else {
        MAX_PERIOD as int
    }
}

/// The shortest period of `data` that is at least `p`, if one is within the limit.
pub open spec fn period_from(data: Seq<u8>, p: int) -> Option<int>
    decreases period_limit(data.len() as int) + 1 - p,
{
    if p > period_limit(data.len() as int) {
        None
    } else if has_period(data, p) {
        Some(p)
    } else {
        period_from(data, p + 1)
    }
}

/// The rule found for `data`: of the raw bytes, a constant, an arithmetic
/// progression, an alternation and the shortest period, tried in this order, the
/// first of least cost.
pub open spec fn inferred(data: Seq<u8>) -> Rule {
    let n = data.len();
    let r0 = Rule::Raw(data);
    let r1 = if n > 0 {
        cheaper(r0, Rule::Constant(data[0], n as usize), data)
    } else {
        r0
    };
    let r2 = if n >= 3 {
        cheaper(r1, Rule::Arithmetic(data[0], ((data[1] - data[0]) % 256) as u8, n as usize), data)
    } else {
        r1
    };
    let r3 = if n >= 4 && n % 2 == 0 && data[0] != data[1] {
        cheaper(r2, Rule::Alternating(data[0], data[1], n as usize), data)
    } else {
        r2
    };
    match period_from(data, 2) {
        Some(p) => cheaper(r3, period_rule(data, p), data),
        None => r3,
    }
}

/// The rule found for a byte string generates it, and costs no more than its bytes.
pub proof fn law_inferred_generates(data: Seq<u8>)
    ensures
        generated(inferred(data)) == data,
        rule_cost(inferred(data)) <= data.len(),
{
}

pub proof fn lemma_period_from(data: Seq<u8>, p: int)
    requires
        2 <= p,
    ensures
        period_from(data, p) matches Some(q) ==> p <= q <= MAX_PERIOD,
    decreases period_limit(data.len() as int) + 1 - p,
{
    if p <= period_limit(data.len() as int) && !has_period(data, p) {
        lemma_period_from(data, p + 1);
    }
}

pub proof fn lemma_period_found(data: Seq<u8>, p: int)
    ensures
        period_from(data, p) matches Some(q) ==> has_period(data, q),
    decreases period_limit(data.len() as int) + 1 - p,
{
    if p <= period_limit(data.len() as int) && !has_period(data, p) {
        lemma_period_found(data, p + 1);
    }
}

proof fn lemma_period_least(data: Seq<u8>, p: int, m: int)
    requires
        p <= m <= period_limit(data.len() as int),
        has_period(data, m),
    ensures
        period_from(data, p) matches Some(q) && q <= m,
    decreases m - p,
{
    if !has_period(data, p) {
        lemma_period_least(data, p + 1, m);
    }
}

/// What is found costs no more than each rule that is tried.
proof fn lemma_inferred_least(data: Seq<u8>)
    ensures
        ({
            let n = data.len();
            let constant = Rule::Constant(data[0], n as usize);
            let steps = Rule::Arithmetic(data[0], ((data[1] - data[0]) % 256) as u8, n as usize);
            let turns = Rule::Alternating(data[0], data[1], n as usize);
            &&& n > 0 && generated(constant) == data ==> rule_cost(inferred(data)) <= rule_cost(
                constant,
            )
            &&& n >= 3 && generated(steps) == data ==> rule_cost(inferred(data)) <= rule_cost(steps)
            &&& n >= 4 && n % 2 == 0 && data[0] != data[1] && generated(turns) == data ==> rule_cost(
                inferred(data),
            ) <= rule_cost(turns)
            &&& period_from(data, 2) matches Some(p) ==> rule_cost(inferred(data)) <= rule_cost(
                period_rule(data, p),
            )
        }),
{
    lemma_period_found(data, 2);
}

/// No rule that generates a byte string is cheaper than the one found for it, but for
/// two kinds that are not looked for: two bytes in turn that end with the first, where
/// this takes five bytes or more and is neither a constant nor a progression, and a
/// string of more than 32 bytes, repeated.
pub proof fn law_inferred_cheapest(data: Seq<u8>, rule: Rule)
    requires
        generated(rule) == data,
        rule matches Rule::Alternating(a, b, n) ==> n % 2 == 0 || n < 5 || (b - a) % 128 == 0,
        rule matches Rule::Periodic(p, r) ==> p.len() <= 32 || r < 2,
    ensures
        rule_cost(inferred(data)) <= rule_cost(rule),
{
    lemma_inferred_least(data);
    match rule {
        Rule::Raw(_) => {},
        Rule::Constant(v, n) => {
            if n > 0 {
                assert(data[0] == v);
            }
        },
        Rule::Arithmetic(s, st, n) => {
            if n >= 3 {
                assert(data[0] == s);
                assert(data[1] == (s + st * 1) % 256);
                assert((data[1] - data[0]) % 256 == st);
            }
        },
        Rule::Alternating(a, b, n) => lemma_cheapest_turns(data, a, b, n),
        Rule::Periodic(p, r) => lemma_cheapest_period(data, p, r),
    }
}

#[verifier::rlimit(40)]
proof fn lemma_cheapest_turns(data: Seq<u8>, a: u8, b: u8, n: usize)
    requires
        generated(Rule::Alternating(a, b, n)) == data,
        n % 2 == 0 || n < 5 || (b - a) % 128 == 0,
    ensures
        rule_cost(inferred(data)) <= rule_cost(Rule::Alternating(a, b, n)),
{
    lemma_inferred_least(data);
    if n >= 4 {
        assert(data[0] == a && data[1] == b);
        if a == b {
            assert(generated(Rule::Constant(a, n)) =~= data);
        } else if n % 2 != 0 {
            let st = ((b - a) % 256) as u8;
            assert(st == 128);
            let steps = Rule::Arithmetic(a, st, n);
            assert forall|i: int| 0 <= i < n implies #[trigger] generated(steps)[i] == data[i] by {
                assert(st * i == 128 * i);
            }
            assert(generated(steps) =~= data);
        }
    }
}

#[verifier::rlimit(40)]
proof fn lemma_cheapest_period(data: Seq<u8>, p: Seq<u8>, r: usize)
    requires
        generated(Rule::Periodic(p, r)) == data,
        p.len() <= MAX_PERIOD || r < 2,
    ensures
        rule_cost(inferred(data)) <= rule_cost(Rule::Periodic(p, r)),
{
    let m = p.len() as int;
    let n = data.len() as int;
    assert(n == m * r);
    lemma_inferred_least(data);
    if m == 0 || r == 0 {
        assert(m * r == 0) by (nonlinear_arith)
            requires
                m == 0 || r == 0,
        ;
    } else if r == 1 {
        assert(n == m);
    } else if m == 1 {
        assert(n == r) by (nonlinear_arith)
            requires
                n == m * r,
                m == 1,
        ;
        assert forall|i: int| 0 <= i < n implies #[trigger] data[i] == p[0] by {
            assert(i % m == 0) by (nonlinear_arith)
                requires
                    m == 1,
            ;
            assert(data[i] == p[i % m]);
        }
        assert(generated(Rule::Constant(p[0], r)) =~= data);
    } else {
        lemma_cheapest_repeat(data, p, r);
    }
}

proof fn lemma_period_of(data: Seq<u8>, p: Seq<u8>, r: usize)
    requires
        p.len() > 0,
        r >= 1,
        repeated(p, r as nat) == data,
    ensures
        has_period(data, p.len() as int),
{
    let m = p.len() as int;
    let n = data.len() as int;
    assert(m <= n && n % m == 0 && n / m == r) by (nonlinear_arith)
        requires
            n == m * r,
            m >= 1,
            r >= 1,
    ;
    let head = data.subrange(0, m);
    assert forall|i: int| 0 <= i < m implies #[trigger] head[i] == p[i] by {
        assert(data[i] == p[i % m]);
        assert(i % m == i) by (nonlinear_arith)
            requires
                0 <= i < m,
        ;
    }
    assert(head =~= p);
}

/// The rule of a shorter period costs no more.
proof fn lemma_shorter_period(data: Seq<u8>, p: Seq<u8>, r: usize, q: int)
    requires
        2 <= q <= p.len() <= MAX_PERIOD,
        data.len() == p.len() * r,
        has_period(data, q),
    ensures
        rule_cost(period_rule(data, q)) <= rule_cost(Rule::Periodic(p, r)),
{
    let m = p.len() as int;
    let n = data.len() as int;
    let times = (n / q) as usize;
    assert(repeated(data.subrange(0, q), times as nat).len() == q * times);
    assert(times <= 128 * r && (q == m ==> times == r)) by (nonlinear_arith)
        requires
            q * times == n,
            n == m * r,
            2 <= q <= m <= 32,
    ;
    if q < m {
        lemma_varint_len_grows(times as nat, r as nat);
    }
}

proof fn lemma_cheapest_repeat(data: Seq<u8>, p: Seq<u8>, r: usize)
    requires
        2 <= p.len() <= MAX_PERIOD,
        r >= 2,
        repeated(p, r as nat) == data,
    ensures
        rule_cost(inferred(data)) <= rule_cost(Rule::Periodic(p, r)),
{
    let m = p.len() as int;
    let n = data.len() as int;
    lemma_period_of(data, p, r);
    assert(m <= n / 2) by (nonlinear_arith)
        requires
            n == m * r,
            m >= 2,
            r >= 2,
    ;
    lemma_period_least(data, 2, m);
    lemma_period_found(data, 2);
    lemma_period_from(data, 2);
    lemma_shorter_period(data, p, r, period_from(data, 2)->0);
    lemma_inferred_least(data);
}

impl DfaKind {
    /// The byte string that the rule generates.
    pub fn generate(&self) -> (out: Vec<u8>)
        ensures
            out@ == generated(self@),
    {
        match self {
            DfaKind::Raw(d) => copy_of(d.as_slice()),
            DfaKind::Constant(v, n) => generate_constant(*v, *n),
            DfaKind::Arithmetic(s, st, n) => generate_arithmetic(*s, *st, *n),
            DfaKind::Alternating(a, b, n) => generate_alternating(*a, *b, *n),
            DfaKind::Periodic(p, r) => generate_periodic(p.as_slice(), *r),
        }
    }

    /// How many bytes the rule is taken to cost in a stream.
    pub fn serial_cost(&self) -> (cost: u128)
        ensures
            cost == rule_cost(self@),
    {
        match self {
            DfaKind::Raw(d) => d.len() as u128,
            DfaKind::Constant(_, n) => 1 + varint_len(*n as u64) as u128,
            DfaKind::Arithmetic(_, _, n) => 2 + varint_len(*n as u64) as u128,
            DfaKind::Alternating(_, _, n) => 2 + varint_len(*n as u64) as u128,
            DfaKind::Periodic(p, r) => varint_len(p.len() as u64) as u128 + p.len() as u128
                + varint_len(*r as u64) as u128,
        }
    }

    /// The same rule again.
    pub fn duplicate(&self) -> (out: DfaKind)
        ensures
            out@ == self@,
    {
        match self {
            DfaKind::Raw(d) => DfaKind::Raw(copy_of(d.as_slice())),
            DfaKind::Constant(v, n) => DfaKind::Constant(*v, *n),
            DfaKind::Arithmetic(s, st, n) => DfaKind::Arithmetic(*s, *st, *n),
            DfaKind::Alternating(a, b, n) => DfaKind::Alternating(*a, *b, *n),
            DfaKind::Periodic(p, r) => DfaKind::Periodic(copy_of(p.as_slice()), *r),
        }
    }
}

fn generate_constant(v: u8, n: usize) -> (out: Vec<u8>)
    ensures
        out@ == generated(Rule::Constant(v, n)),
{
    let mut out: Vec<u8> = Vec::new();
    let mut i: usize = 0;
    while i < n
        invariant
            i <= n,
            out@ == Seq::new(i as nat, |k: int| v),
        decreases n - i,
    {
        out.push(v);
        i += 1;
        assert(out@ =~= Seq::new(i as nat, |k: int| v));
    }
    assert(out@ =~= generated(Rule::Constant(v, n)));
    out
}

fn generate_arithmetic(s: u8, st: u8, n: usize) -> (out: Vec<u8>)
    ensures
        out@ == generated(Rule::Arithmetic(s, st, n)),
{
    let ghost all = generated(Rule::Arithmetic(s, st, n));
    let mut out: Vec<u8> = Vec::new();
    let mut next: u8 = s;
    let mut i: usize = 0;
    while i < n
        invariant
            i <= n,
            all == generated(Rule::Arithmetic(s, st, n)),
            next == (s + st * i) % 256,
            out@ == all.subrange(0, i as int),
        decreases n - i,
    {
        out.push(next);
        proof {
            lemma_next_step(s, st, i as int);
        }
        next = next.wrapping_add(st);
        i += 1;
        assert(out@ =~= all.subrange(0, i as int));
    }
    assert(out@ =~= all);
    out
}

proof fn lemma_next_step(s: u8, st: u8, i: int)
    ensures
        (s + st * (i + 1)) % 256 == ((s + st * i) % 256 + st) % 256,
{
    assert(st * (i + 1) == st * i + st) by (nonlinear_arith);
}

fn generate_alternating(a: u8, b: u8, n: usize) -> (out: Vec<u8>)
    ensures
        out@ == generated(Rule::Alternating(a, b, n)),
{
    let ghost all = generated(Rule::Alternating(a, b, n));
    let mut out: Vec<u8> = Vec::new();
    let mut i: usize = 0;
    while i < n
        invariant
            i <= n,
            all == generated(Rule::Alternating(a, b, n)),
            out@ == all.subrange(0, i as int),
        decreases n - i,
    {
        if i % 2 == 0 {
            out.push(a);
        } else {
            out.push(b);
        }
        i += 1;
        assert(out@ =~= all.subrange(0, i as int));
    }
    assert(out@ =~= all);
    out
}

fn generate_periodic(p: &[u8], r: usize) -> (out: Vec<u8>)
    ensures
        out@ == generated(Rule::Periodic(p@, r)),
{
    let mut out: Vec<u8> = Vec::new();
    let mut i: usize = 0;
    assert(out@ =~= repeated(p@, 0));
    if p.len() == 0 {
        assert(p@.len() * (r as nat) == 0);
        assert(out@ =~= repeated(p@, r as nat));
        return out;
    }
    while i < r
        invariant
            i <= r,
            p@.len() > 0,
            out@ == repeated(p@, i as nat),
        decreases r - i,
    {
        let ghost before = out@;
        extend(&mut out, p);
        proof {
            lemma_repeat_once_more(p@, i as nat);
        }
        i += 1;
    }
    out
}

proof fn lemma_repeat_once_more(p: Seq<u8>, r: nat)
    requires
        p.len() > 0,
    ensures
        repeated(p, r) + p == repeated(p, r + 1),
{
    let m = p.len() as int;
    assert(p.len() * (r + 1) == p.len() * r + p.len()) by (nonlinear_arith);
    assert forall|i: int| 0 <= i < m * (r + 1) implies (repeated(p, r) + p)[i] == repeated(p, r + 1)[i] by {
        if i >= m * r {
            vstd::arithmetic::div_mod::lemma_mod_multiples_vanish(r as int, i - m * r, m);
            vstd::arithmetic::div_mod::lemma_small_mod((i - m * r) as nat, m as nat);
            assert(m * r + (i - m * r) == i);
        }
    }
    assert(repeated(p, r) + p =~= repeated(p, r + 1));
}

/// Whether every byte of `data` is `v`.
fn is_constant(data: &[u8], v: u8) -> (yes: bool)
    ensures
        yes == (generated(Rule::Constant(v, data@.len() as usize)) == data@),
{
    let ghost all = generated(Rule::Constant(v, data@.len() as usize));
    let mut i: usize = 0;
    while i < data.len()
        invariant
            i <= data@.len(),
            all == generated(Rule::Constant(v, data@.len() as usize)),
            forall|k: int| 0 <= k < i ==> data@[k] == all[k],
        decreases data@.len() - i,
    {
        if data[i] != v {
            assert(data@[i as int] != all[i as int]);
            return false;
        }
        i += 1;
    }
    assert(all =~= data@);
    true
}

/// Whether `data` starts at `s` and goes on in steps of `st`.
fn is_arithmetic(data: &[u8], s: u8, st: u8) -> (yes: bool)
    ensures
        yes == (generated(Rule::Arithmetic(s, st, data@.len() as usize)) == data@),
{
    let ghost all = generated(Rule::Arithmetic(s, st, data@.len() as usize));
    let mut next: u8 = s;
    let mut i: usize = 0;
    while i < data.len()
        invariant
            i <= data@.len(),
            all == generated(Rule::Arithmetic(s, st, data@.len() as usize)),
            next == (s + st * i) % 256,
            forall|k: int| 0 <= k < i ==> data@[k] == all[k],
        decreases data@.len() - i,
    {
        if data[i] != next {
            assert(data@[i as int] != all[i as int]);
            return false;
        }
        proof {
            lemma_next_step(s, st, i as int);
        }
        next = next.wrapping_add(st);
        i += 1;
    }
    assert(all =~= data@);
    true
}

/// Whether `data` is `a` and `b` in turn.
fn is_alternating(data: &[u8], a: u8, b: u8) -> (yes: bool)
    ensures
        yes == (generated(Rule::Alternating(a, b, data@.len() as usize)) == data@),
{
    let ghost all = generated(Rule::Alternating(a, b, data@.len() as usize));
    let mut i: usize = 0;
    while i < data.len()
        invariant
            i <= data@.len(),
            all == generated(Rule::Alternating(a, b, data@.len() as usize)),
            forall|k: int| 0 <= k < i ==> data@[k] == all[k],
        decreases data@.len() - i,
    {
        let expected: u8 = if i % 2 == 0 {
            a
        } else {
            b
        };
        if data[i] != expected {
            assert(data@[i as int] != all[i as int]);
            return false;
        }
        i += 1;
    }
    assert(all =~= data@);
    true
}

/// Whether `data` is its first `p` bytes over and over.
fn is_periodic(data: &[u8], p: usize) -> (yes: bool)
    requires
        1 <= p <= data@.len(),
    ensures
        yes == has_period(data@, p as int),
{
    if data.len() % p != 0 {
        return false;
    }
    let ghost all = generated(period_rule(data@, p as int));
    let ghost n = data@.len() as int;
    proof {
        vstd::arithmetic::div_mod::lemma_fundamental_div_mod(n, p as int);
        assert(n / p as int <= n) by {
            vstd::arithmetic::div_mod::lemma_div_is_ordered_by_denominator(n, 1, p as int);
        }
        assert(all.len() == n);
    }
    let mut i: usize = 0;
    while i < data.len()
        invariant
            i <= data@.len(),
            1 <= p <= data@.len(),
            all == generated(period_rule(data@, p as int)),
            all.len() == data@.len(),
            forall|k: int| 0 <= k < i ==> data@[k] == all[k],
        decreases data@.len() - i,
    {
        assert(all[i as int] == data@[i as int % p as int]) by {
            vstd::arithmetic::div_mod::lemma_mod_bound(i as int, p as int);
        }
        if data[i] != data[i % p] {
            assert(data@[i as int] != all[i as int]);
            return false;
        }
        i += 1;
    }
    assert(all =~= data@);
    true
}

/// The cheaper of two rules: `found`, unless `next` costs less.
fn take_cheaper(found: DfaKind, next: DfaKind) -> (best: DfaKind)
    ensures
        best@ == (if rule_cost(next@) < rule_cost(found@) {
            next@
        } else {
            found@
        }),
{
    if next.serial_cost() < found.serial_cost() {
        next
    } else {
        found
    }
}

/// The cheapest rule for `data`, of those that are looked for.
pub fn infer_dfa(data: &[u8]) -> (best: DfaKind)
    ensures
        best@ == inferred(data@),
        generated(best@) == data@,
        rule_cost(best@) <= data@.len(),
{
    let n: usize = data.len();
    let mut best: DfaKind = DfaKind::Raw(copy_of(data));
    if n > 0 && is_constant(data, data[0]) {
        best = take_cheaper(best, DfaKind::Constant(data[0], n));
    }
    if n >= 3 {
        let step: u8 = data[1].wrapping_sub(data[0]);
        if is_arithmetic(data, data[0], step) {
            best = take_cheaper(best, DfaKind::Arithmetic(data[0], step, n));
        }
    }
    if n >= 4 && n % 2 == 0 && data[0] != data[1] && is_alternating(data, data[0], data[1]) {
        best = take_cheaper(best, DfaKind::Alternating(data[0], data[1], n));
    }
    let limit: usize = if n / 2 < MAX_PERIOD {
        n / 2
    } else {
        MAX_PERIOD
    };
    let ghost before = best@;
    let mut p: usize = 2;
    while p <= limit
        invariant_except_break
            best@ == before,
            period_from(data@, 2) == period_from(data@, p as int),
        invariant
            2 <= p,
            limit == period_limit(data@.len() as int),
            n == data@.len(),
            limit <= 32,
            limit <= n / 2,
        ensures
            best@ == (match period_from(data@, 2) {
                Some(q) => cheaper(before, period_rule(data@, q), data@),
                None => before,
            }),
        decreases limit + 1 - p,
    {
        if is_periodic(data, p) {
            let rule = DfaKind::Periodic(copy_range(data, 0, p), n / p);
            assert(rule@ == period_rule(data@, p as int));
            best = take_cheaper(best, rule);
            break ;
        }
        p += 1;
    }
    proof {
        law_inferred_generates(data@);
    }
    best
}

/// What each rule generates: the bytes themselves; one byte so often; bytes each of
/// which exceeds the one before it by the step, modulo 256; two bytes in turn; a string
/// so often.
pub proof fn law_generated(d: Seq<u8>, a: u8, b: u8, n: usize)
    ensures
        generated(Rule::Raw(d)) == d,
        generated(Rule::Constant(a, n)).len() == n,
        forall|i: int| 0 <= i < n ==> #[trigger] generated(Rule::Constant(a, n))[i] == a,
        generated(Rule::Arithmetic(a, b, n)).len() == n,
        n > 0 ==> generated(Rule::Arithmetic(a, b, n))[0] == a,
        forall|i: int|
            0 < i < n ==> #[trigger] generated(Rule::Arithmetic(a, b, n))[i] == (generated(
                Rule::Arithmetic(a, b, n),
            )[i - 1] + b) % 256,
        generated(Rule::Alternating(a, b, n)).len() == n,
        forall|i: int|
            0 <= i < n ==> #[trigger] generated(Rule::Alternating(a, b, n))[i] == (if i % 2 == 0 {
                a
            } else {
                b
            }),
        generated(Rule::Periodic(d, n)) == Seq::new(n as nat, |i: int| d).flatten(),
{
    let steps = generated(Rule::Arithmetic(a, b, n));
    assert(b * 0 == 0);
    assert forall|i: int| 0 < i < n implies #[trigger] steps[i] == (steps[i - 1] + b) % 256 by {
        lemma_next_step(a, b, i - 1);
    }
    lemma_repeated_flat(d, n as nat);
}

proof fn lemma_repeated_flat(p: Seq<u8>, r: nat)
    ensures
        repeated(p, r) == Seq::new(r, |i: int| p).flatten(),
    decreases r,
{
    let parts = Seq::new(r, |i: int| p);
    parts.lemma_flatten_and_flatten_alt_are_equivalent();
    if p.len() == 0 {
        assert(p.len() * r == 0) by (nonlinear_arith)
            requires
                p.len() == 0,
        ;
        assert(repeated(p, r) =~= Seq::empty());
        if r > 0 {
            lemma_repeated_flat(p, (r - 1) as nat);
            let fewer = Seq::new((r - 1) as nat, |i: int| p);
            fewer.lemma_flatten_and_flatten_alt_are_equivalent();
            assert(p.len() * (r - 1) == 0) by (nonlinear_arith)
                requires
                    p.len() == 0,
            ;
            assert(parts.drop_last() =~= fewer);
            assert(parts.flatten() =~= Seq::empty());
        }
    } else if r == 0 {
        assert(repeated(p, 0) =~= Seq::empty());
    } else {
        lemma_repeated_flat(p, (r - 1) as nat);
        lemma_repeat_once_more(p, (r - 1) as nat);
        let fewer = Seq::new((r - 1) as nat, |i: int| p);
        fewer.lemma_flatten_and_flatten_alt_are_equivalent();
        assert(parts.drop_last() =~= fewer);
        assert(parts.last() == p);
    }
}

/// Raw bytes stay unless a rule is cheaper, and a progression stays unless another rule
/// is cheaper than it.
pub proof fn law_inferred_first(data: Seq<u8>)
    ensures
        rule_cost(inferred(data)) == data.len() ==> inferred(data) == Rule::Raw(data),
        inferred(data) matches Rule::Alternating(a, b, n) ==> forall|s: u8, st: u8, k: usize|
            #[trigger] generated(Rule::Arithmetic(s, st, k)) != data,
{
    if let Rule::Alternating(a, b, n) = inferred(data) {
        assert forall|s: u8, st: u8, k: usize| #[trigger]
            generated(Rule::Arithmetic(s, st, k)) != data by {
            let steps = Rule::Arithmetic(s, st, k);
            if generated(steps) == data {
                law_inferred_generates(data);
                assert(data.len() == k);
                lemma_alternation_long(data);
                assert(data[0] == s);
                assert(data[1] == (s + st * 1) % 256);
                assert((data[1] - data[0]) % 256 == st);
                assert(rule_cost(steps) == rule_cost(inferred(data)));
            }
        }
    }
}

proof fn lemma_alternation_long(data: Seq<u8>)
    requires
        inferred(data) is Alternating,
    ensures
        data.len() >= 4,
        inferred(data) == Rule::Alternating(data[0], data[1], data.len() as usize),
{
}

/// Rules are what they hold.
pub proof fn law_rules_viewed(rule: DfaKind)
    ensures
        match rule {
            DfaKind::Raw(d) => rule@ == Rule::Raw(d@),
            DfaKind::Constant(v, n) => rule@ == Rule::Constant(v, n),
            DfaKind::Arithmetic(s, st, n) => rule@ == Rule::Arithmetic(s, st, n),
            DfaKind::Alternating(a, b, n) => rule@ == Rule::Alternating(a, b, n),
            DfaKind::Periodic(p, r) => rule@ == Rule::Periodic(p@, r),
        },
{
}

} // verus!
