//! Tool-call identifiers: `call_` and eight characters of `a`-`z`, `0`-`9`,
//! drawn from a xorshift generator.

use std::hash::BuildHasher;
use std::hash::RandomState;
use vstd::prelude::*;
use vstd::string::*;

verus! {

/// One step of the xorshift generator.
pub open spec fn xorshift(x: u64) -> u64 {
    let a = x ^ (x << 13u64);
    let b = a ^ (a >> 7u64);
    b ^ (b << 17u64)
}

/// The generator state seeded from a counter and an address. The lowest bit
/// is set: the all-zero state would stay where it is.
pub open spec fn seed_of(counter: u64, address: u64) -> u64 {
    counter.wrapping_mul(0x517c_c1b7_2722_0a95).wrapping_add(address & 0xFFFF_FFFF) | 1
}

/// The identifier character for a value below 36.
pub open spec fn id_char(d: int) -> char {
    if d < 26 {
        ((97 + d) as u8) as char
    } else {
        ((48 + (d - 26)) as u8) as char
    }
}

/// The lowest `n` digits of `v` in base 36, lowest first.
pub open spec fn id_digits(v: nat, n: nat) -> Seq<char>
    decreases n,
{
    if n == 0 {
        Seq::empty()
    } else {
        seq![id_char((v % 36) as int)] + id_digits(v / 36, (n - 1) as nat)
    }
}

/// The identifier for a generator value.
pub open spec fn id_text(v: u64) -> Seq<char> {
    "call_"@ + id_digits(v as nat, 8)
}

/// Whether `id` has the format of a tool-call identifier.
pub open spec fn is_call_id(id: Seq<char>) -> bool {
    &&& id.len() == 13
    &&& id.subrange(0, 5) == "call_"@
    &&& forall|i: int|
        5 <= i < 13 ==> ('a' <= #[trigger] id[i] <= 'z' || '0' <= id[i] <= '9')
}

/// One step of the xorshift generator.
pub fn xorshift64(state: u64) -> (next: u64)
    ensures
        next == xorshift(state),
{
    let mut x: u64 = state;
    x = x ^ (x << 13u64);
    x = x ^ (x >> 7u64);
    x = x ^ (x << 17u64);
    x
}

/// A seed for the generator, from a counter and an address.
pub fn seed_from(counter: u64, address: u64) -> (seed: u64)
    ensures
        seed == seed_of(counter, address),
        seed != 0,
{
    let mixed: u64 = counter.wrapping_mul(0x517c_c1b7_2722_0a95).wrapping_add(
        address & 0xFFFF_FFFF,
    );
    assert(mixed | 1 != 0) by (bit_vector);
    mixed | 1
}

/// The identifier for a generator value.
pub fn encode_id(val: u64) -> (id: String)
    ensures
        id@ == id_text(val),
        is_call_id(id@),
{
    let mut id = String::from_str("call_");
    let mut v: u64 = val;
    let mut i: u64 = 0;
    assert("call_"@ + Seq::<char>::empty() =~= "call_"@);
    while i < 8
        invariant
            i <= 8,
            id@ + id_digits(v as nat, (8 - i) as nat) == id_text(val),
        decreases 8 - i,
    {
        let d: u8 = (v % 36) as u8;
        let c: char = if d < 26 {
            (97 + d) as char
        } else {
            (48 + (d - 26)) as char
        };
        proof {
            assert(c == id_char((v % 36) as int));
            assert(id@.push(c) + id_digits((v / 36) as nat, (7 - i) as nat) =~= id@ + (seq![c]
                + id_digits((v / 36) as nat, (7 - i) as nat)));
        }
        id.push(c);
        v = v / 36;
        i = i + 1;
    }
    proof {
        assert(id@ + id_digits(v as nat, 0) =~= id@);
        lemma_id_format(val);
    }
    id
}

/// The characters of an identifier are lower-case letters and digits.
proof fn lemma_id_digits(v: nat, n: nat)
    ensures
        id_digits(v, n).len() == n,
        forall|i: int|
            0 <= i < n ==> ('a' <= #[trigger] id_digits(v, n)[i] <= 'z' || '0' <= id_digits(
                v,
                n,
            )[i] <= '9'),
    decreases n,
{
    if n > 0 {
        lemma_id_digits(v / 36, (n - 1) as nat);
        let rest = id_digits(v / 36, (n - 1) as nat);
        assert forall|i: int| 0 <= i < n implies ('a' <= #[trigger] id_digits(v, n)[i] <= 'z'
            || '0' <= id_digits(v, n)[i] <= '9') by {
            if i > 0 {
                assert(id_digits(v, n)[i] == rest[i - 1]);
            }
        }
    }
}

/// Every identifier has the documented format, whatever the generator value.
pub proof fn lemma_id_format(v: u64)
    ensures
        is_call_id(id_text(v)),
{
    reveal_strlit("call_");
    lemma_id_digits(v as nat, 8);
    let id = id_text(v);
    assert(id.subrange(0, 5) =~= "call_"@);
    assert forall|i: int| 5 <= i < 13 implies ('a' <= #[trigger] id[i] <= 'z' || '0' <= id[i]
        <= '9') by {
        assert(id[i] == id_digits(v as nat, 8)[i - 5]);
    }
}

/// How many identifiers there are: 36 to the power of 8.
pub open spec fn id_count() -> nat {
    2_821_109_907_456
}

/// Different values below 36 have different characters.
proof fn lemma_id_char(a: int, b: int)
    requires
        0 <= a < 36,
        0 <= b < 36,
        id_char(a) == id_char(b),
    ensures
        a == b,
{
}

/// 36 to the power of `n`.
pub open spec fn pow36(n: nat) -> nat
    decreases n,
{
    if n == 0 {
        1
    } else {
        36 * pow36((n - 1) as nat)
    }
}

/// The lowest `n` digits tell numbers apart as far as they go.
proof fn lemma_id_digits_apart(a: nat, b: nat, n: nat)
    ensures
        pow36(n) > 0,
        id_digits(a, n) == id_digits(b, n) <==> a % pow36(n) == b % pow36(n),
    decreases n,
{
    if n == 0 {
        assert(a % 1 == 0 && b % 1 == 0);
    } else {
        let k = (n - 1) as nat;
        let p = pow36(k);
        lemma_id_digits_apart(a / 36, b / 36, k);
        let x = id_digits(a, n);
        let y = id_digits(b, n);
        assert(x.skip(1) =~= id_digits(a / 36, k));
        assert(y.skip(1) =~= id_digits(b / 36, k));
        assert(x[0] == id_char((a % 36) as int) && y[0] == id_char((b % 36) as int));
        if x == y {
            lemma_id_char((a % 36) as int, (b % 36) as int);
        }
        lemma_mod_digits(a, p);
        lemma_mod_digits(b, p);
        let ah = (a / 36) % p;
        let bh = (b / 36) % p;
        assert(a % (36 * p) == 36 * ah + a % 36);
        assert(b % (36 * p) == 36 * bh + b % 36);
        if a % pow36(n) == b % pow36(n) {
            assert(ah == bh && a % 36 == b % 36);
            assert(x =~= seq![x[0]] + x.skip(1));
            assert(y =~= seq![y[0]] + y.skip(1));
        }
    }
}

proof fn lemma_mod_digits(a: nat, p: nat)
    requires
        p > 0,
    ensures
        a % (36 * p) == 36 * ((a / 36) % p) + a % 36,
{
    vstd::arithmetic::div_mod::lemma_mod_breakdown(a as int, 36, p as int);
}

/// Two identifiers are the same if and only if the generator values agree in
/// their lowest eight digits. In particular two successive identifiers differ,
/// unless the generator's next state agrees with its state there.
pub proof fn law_ids_differ(a: u64, b: u64)
    ensures
        id_text(a) == id_text(b) <==> a as nat % id_count() == b as nat % id_count(),
{
    lemma_id_digits_apart(a as nat, b as nat, 8);
    reveal_with_fuel(pow36, 9);
    assert(pow36(8) == id_count());
    let head = "call_"@;
    let n = head.len() as int;
    assert(id_text(a).skip(n) =~= id_digits(a as nat, 8));
    assert(id_text(b).skip(n) =~= id_digits(b as nat, 8));
}

/// Setting the lowest bit of a number makes it odd, and leaves an odd one.
proof fn lemma_lowest_bit(m: u64)
    ensures
        m % 2 == 1 ==> m | 1 == m,
        m % 2 == 0 ==> m | 1 == m + 1,
{
    assert(m % 2 == 1 ==> m | 1 == m) by (bit_vector);
    assert(m % 2 == 0 ==> m | 1 == m + 1) by (bit_vector);
}

/// A seed is odd. It is the counter times a constant, plus the low half of the
/// address, modulo 2 to the power of 64, with the lowest bit set.
pub proof fn law_seed(counter: u64, address: u64)
    ensures
        ({
            let product = (counter as int * 0x517c_c1b7_2722_0a95int) % 0x1_0000_0000_0000_0000int;
            let mixed = (product + address as int % 0x1_0000_0000int)
                % 0x1_0000_0000_0000_0000int;
            seed_of(counter, address) == if mixed % 2 == 1 {
                mixed
            } else {
                mixed + 1
            }
        }),
{
    assert(address & 0xFFFF_FFFF == address % 0x1_0000_0000) by (bit_vector);
    let product = counter.wrapping_mul(0x517c_c1b7_2722_0a95);
    let mixed = product.wrapping_add(address & 0xFFFF_FFFF);
    lemma_lowest_bit(mixed);
}

/// The characters of identifiers are the letters in order and then the digits in
/// order.
pub proof fn law_alphabet(d: int)
    requires
        0 <= d < 36,
    ensures
        id_char(0) == 'a',
        id_char(25) == 'z',
        id_char(26) == '0',
        id_char(35) == '9',
        d < 26 ==> id_char(d) as int == 'a' as int + d,
        d >= 26 ==> id_char(d) as int == '0' as int + (d - 26),
{
}

/// Each character of an identifier is that of one digit of the value in base 36,
/// the lowest first.
pub proof fn law_id_digits(v: nat, n: nat, i: nat)
    requires
        i < n,
    ensures
        id_digits(v, n).len() == n,
        id_digits(v, n)[i as int] == id_char((v / pow36(i)) as int % 36),
    decreases n,
{
    lemma_id_digits(v, n);
    let rest = id_digits(v / 36, (n - 1) as nat);
    assert(id_digits(v, n) == seq![id_char((v % 36) as int)] + rest);
    if i == 0 {
        assert(v / 1 == v);
    } else {
        let j = (i - 1) as nat;
        law_id_digits(v / 36, (n - 1) as nat, j);
        assert(id_digits(v, n)[i as int] == rest[j as int]);
        lemma_id_digits_apart(0, 0, j);
        vstd::arithmetic::div_mod::lemma_div_denominator(v as int, 36, pow36(j) as int);
    }
}

/// The generator mixes its bits linearly: the successor of a combination is the
/// combination of the successors.
pub proof fn law_generator_is_linear(a: u64, b: u64)
    ensures
        xorshift(a ^ b) == xorshift(a) ^ xorshift(b),
        xorshift(0) == 0,
{
    let c = a ^ b;
    let a1 = a ^ (a << 13u64);
    let b1 = b ^ (b << 13u64);
    let c1 = c ^ (c << 13u64);
    assert((a ^ b) ^ ((a ^ b) << 13u64) == (a ^ (a << 13u64)) ^ (b ^ (b << 13u64)))
        by (bit_vector);
    let a2 = a1 ^ (a1 >> 7u64);
    let b2 = b1 ^ (b1 >> 7u64);
    assert((a1 ^ b1) ^ ((a1 ^ b1) >> 7u64) == (a1 ^ (a1 >> 7u64)) ^ (b1 ^ (b1 >> 7u64)))
        by (bit_vector);
    assert((a2 ^ b2) ^ ((a2 ^ b2) << 17u64) == (a2 ^ (a2 << 17u64)) ^ (b2 ^ (b2 << 17u64)))
        by (bit_vector);
    assert(0u64 ^ (0u64 << 13u64) == 0) by (bit_vector);
    assert(0u64 ^ (0u64 >> 7u64) == 0) by (bit_vector);
    assert(0u64 ^ (0u64 << 17u64) == 0) by (bit_vector);
}

/// The generator never falls into the state zero, and no two states have the
/// same successor: it does not get stuck, and does not merge sequences.
pub proof fn law_generator_keeps_going(a: u64, b: u64)
    ensures
        a != 0 ==> xorshift(a) != 0,
        xorshift(a) == xorshift(b) ==> a == b,
{
    assert(a ^ (a << 13u64) == b ^ (b << 13u64) ==> a == b) by (bit_vector);
    let a1 = a ^ (a << 13u64);
    let b1 = b ^ (b << 13u64);
    assert(a1 ^ (a1 >> 7u64) == b1 ^ (b1 >> 7u64) ==> a1 == b1) by (bit_vector);
    let a2 = a1 ^ (a1 >> 7u64);
    let b2 = b1 ^ (b1 >> 7u64);
    assert(a2 ^ (a2 << 17u64) == b2 ^ (b2 << 17u64) ==> a2 == b2) by (bit_vector);
    assert(a != 0 ==> a ^ (a << 13u64) != 0) by (bit_vector);
    assert(a1 != 0 ==> a1 ^ (a1 >> 7u64) != 0) by (bit_vector);
    assert(a2 != 0 ==> a2 ^ (a2 << 17u64) != 0) by (bit_vector);
}

/// `RandomState::new`: fresh random keys. Nothing is claimed of them.
pub assume_specification[ RandomState::new ]() -> RandomState
;

/// `BuildHasher::hash_one` on a `RandomState`: a number that depends on the
/// random keys. Nothing is claimed of it.
#[verifier::external_body]
fn keyed_hash(keys: &RandomState, value: u64) -> u64 {
    keys.hash_one(value)
}

/// Whether a generator state was seeded with two numbers that depend on fresh
/// random keys.
pub closed spec fn drawn_at_random(state: u64) -> bool {
    exists|keys: RandomState, counter: u64, address: u64|
        {
            &&& #[trigger] call_ensures(RandomState::new, (), keys)
            &&& #[trigger] call_ensures(keyed_hash, (&keys, 0u64), counter)
            &&& #[trigger] call_ensures(keyed_hash, (&keys, 1u64), address)
            &&& state == seed_of(counter, address)
        }
}

/// A generator of tool-call identifiers.
///
/// Where the ids come from is no part of a state that holds a generator: all
/// generators are equal, and a clone draws ids of its own.
#[derive(Debug)]
pub struct IdGenerator {
    state: u64,
}

impl PartialEq for IdGenerator {
    fn eq(&self, other: &Self) -> (r: bool) {
        true
    }
}

impl vstd::std_specs::cmp::PartialEqSpecImpl for IdGenerator {
    open spec fn obeys_eq_spec() -> bool {
        true
    }

    open spec fn eq_spec(&self, other: &Self) -> bool {
        true
    }
}

impl Clone for IdGenerator {
    fn clone(&self) -> (g: Self)
        ensures
            drawn_at_random(g@),
            g@ != 0,
    {
        Self::new()
    }
}

impl View for IdGenerator {
    type V = u64;

    closed spec fn view(&self) -> u64 {
        self.state
    }
}

impl IdGenerator {
    /// A generator in a random state.
    pub fn new() -> (g: Self)
        ensures
            drawn_at_random(g@),
            g@ != 0,
    {
        let keys = RandomState::new();
        let counter = keyed_hash(&keys, 0);
        let address = keyed_hash(&keys, 1);
        Self::seeded(counter, address)
    }

    /// A generator seeded from a counter and an address.
    pub fn seeded(counter: u64, address: u64) -> (g: Self)
        ensures
            g@ == seed_of(counter, address),
            g@ != 0,
    {
        Self { state: seed_from(counter, address) }
    }

    /// The next identifier: the generator steps, and its new state is encoded.
    pub fn next_id(&mut self) -> (id: String)
        ensures
            final(self)@ == xorshift(old(self)@),
            id@ == id_text(final(self)@),
            is_call_id(id@),
    {
        self.state = xorshift64(self.state);
        encode_id(self.state)
    }
}

impl Default for IdGenerator {
    fn default() -> (g: Self)
        ensures
            drawn_at_random(g@),
            g@ != 0,
    {
        Self::new()
    }
}

/// A random tool-call identifier.
pub fn make_tool_call_id() -> (id: String)
    ensures
        is_call_id(id@),
        exists|seed: u64|
            drawn_at_random(seed) && seed != 0 && id@ == #[trigger] id_text(xorshift(seed)),
{
    let mut ids = IdGenerator::new();
    ids.next_id()
}

} // verus!
