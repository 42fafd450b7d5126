//! Reading the results of a program run: the final stack and memory, the
//! `this` hash, the self-destruct flag and the log messages.

use std::collections::HashMap;

use vstd::prelude::*;

use crate::abi::{Type, Value, ValueModel, ReadError, read_error_text, read_ok, read_spec};
use crate::text::{decimal, string_from_utf8, write_decimal};

verus! {

/// 2^64.
pub open spec fn r64() -> int {
    0x1_0000_0000_0000_0000
}

/// `x + y` wrapped into 64 bits.
pub open spec fn wrapping_add64(x: int, y: int) -> int {
    if x + y >= r64() {
        x + y - r64()
    } else {
        x + y
    }
}

/// `x - y` wrapped into 64 bits.
pub open spec fn wrapping_sub64(x: int, y: int) -> int {
    if x >= y {
        x - y
    } else {
        x - y + r64()
    }
}

/// Montgomery reduction for the field of order 2^64 - 2^32 + 1: the
/// canonical value of a field element from its internal form.
pub open spec fn mont_red(x: u128) -> u64 {
    let xl = x as int % r64();
    let xh = x as int / r64();
    let shifted = (xl % 0x1_0000_0000) * 0x1_0000_0000;
    let a = wrapping_add64(xl, shifted);
    let e = if xl + shifted >= r64() {
        1int
    } else {
        0int
    };
    let b = wrapping_sub64(wrapping_sub64(a, a / 0x1_0000_0000), e);
    let r = wrapping_sub64(xh, b);
    let c = if xh < b {
        0xFFFF_FFFFint
    } else {
        0int
    };
    wrapping_sub64(r, c) as u64
}

/// Converts a field element from its internal Montgomery form to its
/// canonical value: for an internal value `x` below 2^64, the element
/// x·2^-64 of the field of order 2^64 - 2^32 + 1.
pub fn mont_red_cst(x: u128) -> (v: u64)
    ensures
        v == mont_red(x),
        x < r64() ==> v < field_order() && (v as int * r64()) % field_order() == x as int
            % field_order(),
{
    proof {
        if x < r64() {
            lemma_mont_red_canonical(x);
        }
    }
    let xl = #[verifier::truncate] (x as u64);
    let xh = #[verifier::truncate] ((x >> 64) as u64);
    assert(xl == x % 0x1_0000_0000_0000_0000) by (bit_vector)
        requires
            xl == #[verifier::truncate] (x as u64),
    ;
    assert(xh == x / 0x1_0000_0000_0000_0000) by (bit_vector)
        requires
            xh == #[verifier::truncate] ((x >> 64) as u64),
    ;
    let shifted = xl << 32;
    assert(shifted == (xl % 0x1_0000_0000) * 0x1_0000_0000) by (bit_vector)
        requires
            shifted == xl << 32,
    ;
    let a = xl.wrapping_add(shifted);
    let e: u64 = if a < xl {
        1
    } else {
        0
    };
    let a_high = a >> 32;
    assert(a_high == a / 0x1_0000_0000) by (bit_vector)
        requires
            a_high == a >> 32,
    ;
    let b = a.wrapping_sub(a_high).wrapping_sub(e);
    let r = xh.wrapping_sub(b);
    let c: u64 = if xh < b {
        0xFFFF_FFFF
    } else {
        0
    };
    r.wrapping_sub(c)
}

/// The order of the field: 2^64 - 2^32 + 1.
pub open spec fn field_order() -> int {
    0xFFFF_FFFF_0000_0001
}

/// `x` with 2^64·k added for some integer k: the same value modulo the order.
proof fn lemma_congruent(x: int, y: int, k: int)
    requires
        x == y + field_order() * k,
    ensures
        x % field_order() == y % field_order(),
{
    vstd::arithmetic::div_mod::lemma_mod_multiples_vanish(k, y, field_order());
}

/// Montgomery reduction of an internal value below 2^64 gives the canonical
/// field element x·2^-64: a value below the field order whose product with
/// 2^64 is `x` modulo the order.
pub proof fn lemma_mont_red_canonical(x: u128)
    requires
        x < r64(),
    ensures
        mont_red(x) < field_order(),
        (mont_red(x) as int * r64()) % field_order() == x as int % field_order(),
{
    let bb: int = 0x1_0000_0000;
    let rr = r64();
    let pp = field_order();
    let xi = x as int;
    assert(rr == bb * bb);
    assert(pp == rr - bb + 1);
    let xl = xi % rr;
    let xh = xi / rr;
    vstd::arithmetic::div_mod::lemma_small_mod(x as nat, rr as nat);
    assert(xl == xi);
    assert(xh == 0) by {
        vstd::arithmetic::div_mod::lemma_fundamental_div_mod_converse(xi, rr, 0, xi);
    }
    let lo = xi % bb;
    let hi = xi / bb;
    vstd::arithmetic::div_mod::lemma_fundamental_div_mod(xi, bb);
    assert(0 <= lo < bb);
    assert(0 <= hi < bb) by {
        vstd::arithmetic::div_mod::lemma_div_is_ordered(xi, rr - 1, bb);
        vstd::arithmetic::div_mod::lemma_fundamental_div_mod_converse(rr - 1, bb, bb - 1, bb - 1);
    }
    let q = hi + lo;
    let shifted = lo * bb;
    let sum = xl + shifted;
    assert(sum == q * bb + lo) by (nonlinear_arith)
        requires
            sum == xl + shifted,
            shifted == lo * bb,
            xl == bb * hi + lo,
            q == hi + lo,
    ;
    let e: int = if sum >= rr {
        1
    } else {
        0
    };
    let a = wrapping_add64(xl, shifted);
    let qa = q - e * bb;
    assert(0 <= qa < bb) by (nonlinear_arith)
        requires
            sum == q * bb + lo,
            0 <= lo < bb,
            0 <= q <= 2 * bb - 2,
            e == (if sum >= bb * bb { 1int } else { 0int }),
            qa == q - e * bb,
            bb == 0x1_0000_0000,
    ;
    assert(a == qa * bb + lo) by (nonlinear_arith)
        requires
            a == (if sum >= rr { sum - rr } else { sum }),
            sum == q * bb + lo,
            e == (if sum >= rr { 1int } else { 0int }),
            qa == q - e * bb,
            rr == bb * bb,
    ;
    vstd::arithmetic::div_mod::lemma_fundamental_div_mod_converse(a, bb, qa, lo);
    let a_high = a / bb;
    assert(a_high == qa);
    // a - a_high - e does not wrap
    let b0 = qa * (bb - 1) + lo - e;
    assert(e == 1 ==> q >= bb) by (nonlinear_arith)
        requires
            sum == q * bb + lo,
            0 <= lo < bb,
            e == (if sum >= bb * bb { 1int } else { 0int }),
            bb == 0x1_0000_0000,
    ;
    assert(e == 1 ==> qa <= bb - 2);
    assert(qa * (bb - 1) >= 0 && qa * (bb - 1) <= (bb - 1) * (bb - 1)) by (nonlinear_arith)
        requires
            0 <= qa < bb,
            bb == 0x1_0000_0000,
    ;
    assert(b0 >= 0) by {
        if e == 1 {
            if qa == 0 {
                assert(lo >= 1);
            } else {
                assert(qa * (bb - 1) >= bb - 1) by (nonlinear_arith)
                    requires
                        qa >= 1,
                        bb == 0x1_0000_0000,
                ;
            }
        }
    }
    assert(b0 < pp) by {
        if e == 1 {
            assert(qa * (bb - 1) <= (bb - 2) * (bb - 1)) by (nonlinear_arith)
                requires
                    0 <= qa <= bb - 2,
                    bb == 0x1_0000_0000,
            ;
        }
    }
    assert(a >= a_high) by (nonlinear_arith)
        requires
            a == qa * bb + lo,
            a_high == qa,
            0 <= qa,
            0 <= lo,
            bb == 0x1_0000_0000,
    ;
    let b = wrapping_sub64(wrapping_sub64(a, a / 0x1_0000_0000), e);
    assert(b == b0);
    // b·(2^32 - 1) + x is a multiple of the order
    assert(b0 * (bb - 1) + xi == (q - e * bb + e) * pp) by (nonlinear_arith)
        requires
            b0 == qa * (bb - 1) + lo - e,
            qa == q - e * bb,
            xi == bb * hi + lo,
            q == hi + lo,
            pp == bb * bb - bb + 1,
            e == 0 || e == 1,
    ;
    let r = wrapping_sub64(xh, b);
    let c: int = if xh < b {
        0xFFFF_FFFF
    } else {
        0
    };
    let res = wrapping_sub64(r, c);
    assert(mont_red(x) as int == res);
    if b == 0 {
        assert(res == 0);
        assert(xi == (q - e * bb + e) * pp);
        lemma_congruent(xi, 0, q - e * bb + e);
        assert((0int * rr) % pp == 0);
    } else {
        assert(res == pp - b);
        assert(res * rr == xi + pp * (rr - b - (q - e * bb + e))) by (nonlinear_arith)
            requires
                res == pp - b,
                b * (bb - 1) + xi == (q - e * bb + e) * pp,
                rr == bb * bb,
                pp == bb * bb - bb + 1,
        ;
        lemma_congruent(res * rr, xi, rr - b - (q - e * bb + e));
    }
}

/// The inverse of 2^64 modulo the field order.
pub open spec fn r64_inverse() -> int {
    0xFFFF_FFFE_0000_0001
}

/// Montgomery reduction multiplies by the inverse of 2^64: the result
/// differs from `x` times that inverse by a multiple `k` of the order.
proof fn lemma_mont_red_inverse(x: u128) -> (k: int)
    requires
        x < r64(),
    ensures
        mont_red(x) as int == r64_inverse() * (x as int) + field_order() * k,
{
    let rr = r64();
    let pp = field_order();
    let inv = r64_inverse();
    let m: int = 0xFFFF_FFFE_FFFF_FFFF;
    assert(rr * inv == 1 + pp * m);
    lemma_mont_red_canonical(x);
    let rx = mont_red(x) as int;
    let xi = x as int;
    vstd::arithmetic::div_mod::lemma_fundamental_div_mod(rx * rr, pp);
    vstd::arithmetic::div_mod::lemma_fundamental_div_mod(xi, pp);
    let q1 = (rx * rr) / pp;
    let q2 = xi / pp;
    let k = inv * (q1 - q2) - rx * m;
    let d = q1 - q2;
    assert(rx * rr - xi == pp * d);
    assert((rx * rr - xi) * inv == (pp * d) * inv);
    assert((rx * rr - xi) * inv == rx * (rr * inv) - xi * inv) by (nonlinear_arith);
    assert(rx * (rr * inv) == rx * (1 + pp * m));
    assert(rx * (1 + pp * m) == rx + pp * (rx * m)) by (nonlinear_arith);
    assert((pp * d) * inv == pp * (d * inv)) by (nonlinear_arith);
    assert(rx == inv * xi + pp * k) by (nonlinear_arith)
        requires
            rx + pp * (rx * m) - xi * inv == pp * (d * inv),
            k == inv * d - rx * m,
    ;
    k
}

/// Montgomery reduction is additive modulo the field order, for internal
/// values whose sum stays below 2^64, and takes 0 to 0.
pub proof fn lemma_mont_red_additive(a: u128, b: u128)
    requires
        a + b < r64(),
    ensures
        (mont_red(a) + mont_red(b)) % field_order() == (mont_red((a + b) as u128) as int) % field_order(),
        mont_red(0) == 0,
{
    let pp = field_order();
    let rr = r64();
    let ra = mont_red(a) as int;
    let rb = mont_red(b) as int;
    let rs = mont_red((a + b) as u128) as int;
    lemma_mont_red_canonical(a);
    lemma_mont_red_canonical(b);
    lemma_mont_red_canonical((a + b) as u128);
    lemma_mont_red_canonical(0);
    let inv = r64_inverse();
    let ka = lemma_mont_red_inverse(a);
    let kb = lemma_mont_red_inverse(b);
    let ks = lemma_mont_red_inverse((a + b) as u128);
    assert(ra + rb == rs + pp * (ka + kb - ks)) by (nonlinear_arith)
        requires
            ra == inv * (a as int) + pp * ka,
            rb == inv * (b as int) + pp * kb,
            rs == inv * ((a + b) as int) + pp * ks,
    ;
    lemma_congruent(ra + rb, rs, ka + kb - ks);
    assert(mont_red(0) == 0);
}

/// Why the self-destruct flag could not be read.
#[derive(Debug, PartialEq, Eq)]
pub enum SelfDestructError {
    /// The flag holds a value other than 0 or 1.
    InvalidValue(u64),
}

impl SelfDestructError {
    /// The text of this error.
    pub fn message(&self) -> (s: String)
        ensures
            match *self {
                SelfDestructError::InvalidValue(v) => s@ == "Invalid self destructed value: "@
                    + decimal(v as nat),
            },
    {
        match self {
            SelfDestructError::InvalidValue(v) => {
                let mut s = String::new();
                s.append("Invalid self destructed value: ");
                write_decimal(&mut s, *v as u128);
                s
            },
        }
    }
}

/// The final state of a program run: the stack, top first, and the memory
/// words by address, both as canonical field values for the stack and as
/// raw internal values for memory.
pub struct RunOutput {
    stack: Vec<u64>,
    memory: HashMap<u64, [u64; 4]>,
}

impl RunOutput {
    /// The stack, top first.
    pub closed spec fn stack_view(&self) -> Seq<u64> {
        self.stack@
    }

    /// The memory words by address.
    pub closed spec fn memory_view(&self) -> Map<u64, [u64; 4]> {
        self.memory@
    }

    /// The final state from the virtual machine's stack and memory, both in
    /// the machine's internal form: stack elements are converted to their
    /// canonical values, memory words are kept as they are.
    pub fn from_final_state(stack: &Vec<u64>, memory: &Vec<(u64, [u64; 4])>) -> (o: RunOutput)
        ensures
            o.stack_view().len() == stack@.len(),
            forall|i: int| 0 <= i < stack@.len() ==> o.stack_view()[i] == mont_red(stack@[i] as u128),
            o.memory_view().dom() == Set::new(|a: u64| exists|i: int| 0 <= i < memory@.len() && #[trigger] memory@[i].0 == a),
            forall|i: int| 0 <= i < memory@.len() ==> (forall|j: int| i < j < memory@.len() ==> memory@[j].0 != memory@[i].0)
                ==> o.memory_view()[#[trigger] memory@[i].0] == memory@[i].1,
    {
        let mut out_stack: Vec<u64> = Vec::new();
        let mut i: usize = 0;
        while i < stack.len()
            invariant
                i <= stack@.len(),
                out_stack@.len() == i,
                forall|k: int| 0 <= k < i ==> out_stack@[k] == mont_red(stack@[k] as u128),
            decreases stack@.len() - i,
        {
            out_stack.push(mont_red_cst(stack[i] as u128));
            i = i + 1;
        }
        let mut out_memory: HashMap<u64, [u64; 4]> = HashMap::new();
        let mut j: usize = 0;
        while j < memory.len()
            invariant
                j <= memory@.len(),
                out_memory@.dom() == Set::new(|a: u64| exists|i: int| 0 <= i < j && #[trigger] memory@[i].0 == a),
                forall|i: int| 0 <= i < j ==> (forall|k: int| i < k < j ==> memory@[k].0 != memory@[i].0)
                    ==> out_memory@[#[trigger] memory@[i].0] == memory@[i].1,
            decreases memory@.len() - j,
        {
            let (addr, word) = memory[j];
            out_memory.insert(addr, word);
            j = j + 1;
            proof {
                assert(out_memory@.dom() =~= Set::new(|a: u64| exists|i: int| 0 <= i < j && #[trigger] memory@[i].0 == a)) by {
                    assert forall|a: u64| out_memory@.dom().contains(a) implies exists|i: int| 0 <= i < j && #[trigger] memory@[i].0 == a by {
                        if a == addr {
                            assert(memory@[j - 1].0 == a);
                        }
                    }
                }
            }
        }
        RunOutput { stack: out_stack, memory: out_memory }
    }

    /// The hash of the new `this`: the four top stack elements.
    pub fn hash(&self) -> (h: &[u64])
        requires
            self.stack_view().len() >= 4,
        ensures
            h@ == self.stack_view().subrange(0, 4),
    {
        &self.stack[0..4]
    }

    /// Whether the program destroyed its record: the fifth stack element,
    /// which must be 0 or 1.
    pub fn self_destructed(&self) -> (r: Result<bool, SelfDestructError>)
        requires
            self.stack_view().len() > 4,
        ensures
            r == (if self.stack_view()[4] == 0 {
                Ok::<bool, SelfDestructError>(false)
            } else if self.stack_view()[4] == 1 {
                Ok(true)
            } else {
                Err(SelfDestructError::InvalidValue(self.stack_view()[4]))
            }),
    {
        let self_destructed = self.stack[4];
        if self_destructed == 0 {
            Ok(false)
        } else if self_destructed == 1 {
            Ok(true)
        } else {
            Err(SelfDestructError::InvalidValue(self_destructed))
        }
    }
}

/// The stack that a program starts with: the hash of `this`, last element
/// first.
pub fn stack_values(this_hash: &[u64; 4]) -> (v: Vec<u64>)
    ensures
        v@ == this_hash@.reverse(),
{
    let mut v = Vec::new();
    v.push(this_hash[3]);
    v.push(this_hash[2]);
    v.push(this_hash[1]);
    v.push(this_hash[0]);
    proof {
        assert(v@ =~= this_hash@.reverse());
    }
    v
}

/// The canonical value of the first element of the memory word at `addr`,
/// if that word exists.
pub open spec fn mem_value(mem: Map<u64, [u64; 4]>, addr: int) -> Option<u64> {
    if 0 <= addr <= u64::MAX && mem.contains_key(addr as u64) {
        Some(mont_red(mem[addr as u64][0] as u128))
    } else {
        None
    }
}

/// The bytes of a string of `len` bytes stored one per cell from
/// `data_ptr` on, if every cell exists.
pub open spec fn string_cells(mem: Map<u64, [u64; 4]>, len: u64, data_ptr: u64) -> Option<Seq<u8>> {
    if forall|i: int| 0 <= i < len ==> #[trigger] mem_value(mem, data_ptr + i) is Some {
        Some(Seq::new(len as nat, |i: int| mem_value(mem, data_ptr + i)->0 as u8))
    } else {
        None
    }
}

/// The log messages reachable from the list node `ptr`, newest first, if
/// the list ends within `fuel` nodes and every cell read exists. Each node
/// holds the string's length and data pointer; `prev` points to the pair
/// of cells that lead to the next node.
#[verifier::opaque]
pub open spec fn log_steps(mem: Map<u64, [u64; 4]>, prev: Option<u64>, ptr: Option<u64>, fuel: nat) -> Option<Seq<Seq<u8>>>
    decreases fuel,
{
    if ptr is None || ptr == Some(0u64) {
        Some(Seq::empty())
    } else if fuel == 0 {
        None
    } else {
        let p = ptr->0 as int;
        match (mem_value(mem, p), mem_value(mem, p + 1)) {
            (Some(len), Some(data)) => match string_cells(mem, len, data) {
                Some(bytes) => {
                    if prev is Some && prev->0 < u64::MAX {
                        let next_ptr = mem_value(mem, prev->0 + 1);
                        let next_prev = mem_value(mem, prev->0 as int);
                        match log_steps(mem, next_prev, next_ptr, (fuel - 1) as nat) {
                            Some(rest) => Some(seq![bytes] + rest),
                            None => None,
                        }
                    } else {
                        None
                    }
                },
                None => None,
            },
            _ => None,
        }
    }
}

/// The log list starts at cells 4 and 5.
pub open spec fn log_chain(mem: Map<u64, [u64; 4]>, fuel: nat) -> Option<Seq<Seq<u8>>> {
    log_steps(mem, mem_value(mem, 4), mem_value(mem, 5), fuel)
}

/// The log list ends, every cell it reads exists, and every message is
/// valid UTF-8.
pub open spec fn logs_readable(mem: Map<u64, [u64; 4]>) -> bool {
    exists|fuel: nat| #[trigger] log_chain(mem, fuel) matches Some(msgs)
        && forall|i: int| 0 <= i < msgs.len() ==> vstd::utf8::valid_utf8(#[trigger] msgs[i])
}

/// The bytes of the log messages, newest first.
pub open spec fn log_bytes(mem: Map<u64, [u64; 4]>) -> Seq<Seq<u8>> {
    let fuel = choose|fuel: nat| #[trigger] log_chain(mem, fuel) matches Some(msgs)
        && forall|i: int| 0 <= i < msgs.len() ==> vstd::utf8::valid_utf8(#[trigger] msgs[i]);
    log_chain(mem, fuel)->0
}

impl RunOutput {
    fn get_mem_value(&self, addr: u64) -> (v: Option<u64>)
        ensures
            v == mem_value(self.memory_view(), addr as int),
    {
        broadcast use vstd::std_specs::hash::group_hash_axioms;
        match self.memory.get(&addr) {
            Some(word) => Some(mont_red_cst(word[0] as u128)),
            None => None,
        }
    }

    fn read_string(&self, len: u64, data_ptr: u64) -> (s: String)
        requires
            string_cells(self.memory_view(), len, data_ptr) matches Some(bytes)
                && vstd::utf8::valid_utf8(bytes),
        ensures
            s@ == vstd::utf8::decode_utf8(string_cells(self.memory_view(), len, data_ptr)->0),
    {
        let ghost expected = string_cells(self.memory_view(), len, data_ptr)->0;
        let mut str_bytes: Vec<u8> = Vec::new();
        let mut i: u64 = 0;
        while i < len
            invariant
                i <= len,
                string_cells(self.memory_view(), len, data_ptr) == Some(expected),
                str_bytes@ == expected.take(i as int),
            decreases len - i,
        {
            assert(mem_value(self.memory_view(), data_ptr + i) is Some);
            let c = self.get_mem_value(data_ptr + i).unwrap() as u8;
            str_bytes.push(c);
            i = i + 1;
            proof {
                assert(str_bytes@ =~= expected.take(i as int));
            }
        }
        proof {
            assert(str_bytes@ =~= expected);
        }
        string_from_utf8(str_bytes).unwrap()
    }

    /// The messages logged by the program, oldest first.
    #[verifier::rlimit(40)]
    pub fn logs(&self) -> (msgs: Vec<String>)
        requires
            logs_readable(self.memory_view()),
        ensures
            msgs@.len() == log_bytes(self.memory_view()).len(),
            forall|k: int| 0 <= k < msgs@.len() ==> #[trigger] msgs@[k]@ == vstd::utf8::decode_utf8(
                log_bytes(self.memory_view())[msgs@.len() - 1 - k],
            ),
    {
        let ghost mem = self.memory_view();
        let ghost fuel0 = choose|fuel: nat| #[trigger] log_chain(mem, fuel) matches Some(msgs)
            && forall|i: int| 0 <= i < msgs.len() ==> vstd::utf8::valid_utf8(#[trigger] msgs[i]);
        let ghost all = log_chain(mem, fuel0)->0;
        proof {
            assert(log_chain(mem, fuel0) is Some);
            assert(all.skip(0) =~= all);
        }
        let mut log_messages: Vec<String> = Vec::new();
        let mut prev = self.get_mem_value(4);
        let mut str_ptr = self.get_mem_value(5);
        let ghost mut fuel: nat = fuel0;
        let ghost mut done: int = 0;
        loop
            invariant
                all == log_bytes(mem),
                forall|i: int| 0 <= i < all.len() ==> vstd::utf8::valid_utf8(#[trigger] all[i]),
                0 <= done <= all.len(),
                log_steps(mem, prev, str_ptr, fuel) == Some(all.skip(done)),
                log_messages@.len() == done,
                forall|k: int| 0 <= k < done ==> #[trigger] log_messages@[k]@ == vstd::utf8::decode_utf8(
                    all[done - 1 - k],
                ),
                mem == self.memory_view(),
        ensures
            log_messages@.len() == all.len(),
            all == log_bytes(mem),
            forall|k: int| 0 <= k < all.len() ==> #[trigger] log_messages@[k]@ == vstd::utf8::decode_utf8(
                all[all.len() - 1 - k],
            ),
            decreases fuel,
        {
            if str_ptr == Some(0) || str_ptr.is_none() {
                proof {
                    lemma_log_end(mem, prev, str_ptr, fuel);
                    assert(all.skip(done).len() == 0);
                    assert(done == all.len());
                }
                break;
            }
            proof {
                lemma_log_step(mem, prev, str_ptr, fuel);
            }
            let p = str_ptr.unwrap();
            let len = self.get_mem_value(p).unwrap();
            let data_ptr = self.get_mem_value(p + 1).unwrap();
            proof {
                assert(all.skip(done)[0] == all[done]);
            }
            let s = self.read_string(len, data_ptr);
            log_messages.insert(0, s);
            let pv = prev.unwrap();
            str_ptr = self.get_mem_value(pv + 1);
            prev = self.get_mem_value(pv);
            proof {
                assert(all.skip(done).drop_first() =~= all.skip(done + 1));
                fuel = (fuel - 1) as nat;
                done = done + 1;
            }
        }
        log_messages
    }
}

/// The log list ends at a null or missing pointer.
proof fn lemma_log_end(mem: Map<u64, [u64; 4]>, prev: Option<u64>, ptr: Option<u64>, fuel: nat)
    requires
        ptr is None || ptr == Some(0u64),
    ensures
        log_steps(mem, prev, ptr, fuel) == Some(Seq::<Seq<u8>>::empty()),
{
    reveal(log_steps);
}

/// One node of the log list, read within its fuel.
proof fn lemma_log_step(mem: Map<u64, [u64; 4]>, prev: Option<u64>, ptr: Option<u64>, fuel: nat)
    requires
        log_steps(mem, prev, ptr, fuel) is Some,
        ptr is Some,
        ptr != Some(0u64),
    ensures
        fuel > 0,
        mem_value(mem, ptr->0 as int) is Some,
        mem_value(mem, ptr->0 + 1) is Some,
        string_cells(mem, mem_value(mem, ptr->0 as int)->0, mem_value(mem, ptr->0 + 1)->0)
            == Some(log_steps(mem, prev, ptr, fuel)->0[0]),
        prev is Some,
        prev->0 < u64::MAX,
        log_steps(mem, prev, ptr, fuel)->0.len() > 0,
        log_steps(mem, mem_value(mem, prev->0 as int), mem_value(mem, prev->0 + 1), (fuel - 1) as nat)
            == Some(log_steps(mem, prev, ptr, fuel)->0.drop_first()),
{
    reveal(log_steps);
    let s = log_steps(mem, prev, ptr, fuel)->0;
    let p = ptr->0 as int;
    let bytes = string_cells(mem, mem_value(mem, p)->0, mem_value(mem, p + 1)->0)->0;
    let rest = log_steps(mem, mem_value(mem, prev->0 as int), mem_value(mem, prev->0 + 1), (fuel - 1) as nat)->0;
    assert(s == seq![bytes] + rest);
    assert((seq![bytes] + rest).drop_first() =~= rest);
}

/// The memory word at `addr` with each element in canonical form, if the
/// word exists.
pub open spec fn word_at(mem: Map<u64, [u64; 4]>, addr: int) -> Option<Seq<u64>> {
    if 0 <= addr <= u64::MAX && mem.contains_key(addr as u64) {
        Some(Seq::new(4, |i: int| mont_red(mem[addr as u64][i] as u128)))
    } else {
        None
    }
}

impl RunOutput {
    /// The memory word at `addr`, each element converted to its canonical
    /// value.
    pub fn word(&self, addr: u64) -> (w: Option<[u64; 4]>)
        ensures
            w is Some == word_at(self.memory_view(), addr as int) is Some,
            w matches Some(x) ==> x@ == word_at(self.memory_view(), addr as int)->0,
    {
        broadcast use vstd::std_specs::hash::group_hash_axioms;
        match self.memory.get(&addr) {
            Some(raw) => {
                let w = [
                    mont_red_cst(raw[0] as u128),
                    mont_red_cst(raw[1] as u128),
                    mont_red_cst(raw[2] as u128),
                    mont_red_cst(raw[3] as u128),
                ];
                proof {
                    assert(w@ =~= word_at(self.memory_view(), addr as int)->0);
                }
                Some(w)
            },
            None => None,
        }
    }
}

/// Why the new `this` could not be read.
#[derive(Debug, PartialEq, Eq)]
pub enum ThisError {
    MissingThisType,
    MissingThisAddr,
    Read(ReadError),
}

/// The text of a failure to read the new `this`.
pub open spec fn this_error_text(e: ThisError) -> Seq<char> {
    match e {
        ThisError::MissingThisType => "Missing this type"@,
        ThisError::MissingThisAddr => "Missing this addr"@,
        ThisError::Read(r) => read_error_text(r),
    }
}

impl ThisError {
    /// The text of this error.
    pub fn message(&self) -> (s: String)
        ensures
            s@ == this_error_text(*self),
    {
        match self {
            ThisError::MissingThisType => "Missing this type".to_owned(),
            ThisError::MissingThisAddr => "Missing this addr".to_owned(),
            ThisError::Read(r) => r.message(),
        }
    }
}

impl RunOutput {
    /// The new value of `this`, read from memory at the address and with the
    /// type that the compiled program's ABI gives.
    pub fn this(&self, this_type: Option<&Type>, this_addr: Option<u32>) -> (r: Result<Value, ThisError>)
        requires
            this_type matches Some(t) && this_addr matches Some(a) ==> read_ok(*t, self.memory_view(), a as int),
        ensures
            this_type is None ==> r == Err::<Value, ThisError>(ThisError::MissingThisType),
            this_type is Some && this_addr is None ==> r == Err::<Value, ThisError>(ThisError::MissingThisAddr),
            this_type matches Some(t) && this_addr matches Some(a) ==> match (r, read_spec(*t, self.memory_view(), a as int)) {
                (Ok(v), Ok(m)) => v@ == m,
                (Err(ThisError::Read(e)), Err(f)) => e == f,
                _ => false,
            },
    {
        let this_type = match this_type {
            Some(t) => t,
            None => return Err(ThisError::MissingThisType),
        };
        let this_addr = match this_addr {
            Some(a) => a,
            None => return Err(ThisError::MissingThisAddr),
        };
        match this_type.read(self, this_addr as u64) {
            Ok(v) => Ok(v),
            Err(e) => Err(ThisError::Read(e)),
        }
    }

    /// What a failed run reports, from the memory of the last state before
    /// the failure: the error string that the program stored at cells 1 and
    /// 2, then `": "` and the machine's error; the machine's error alone
    /// when that string is empty.
    pub fn failure_report(&self, vm_error: &str) -> (r: Result<String, ReadError>)
        requires
            read_ok(Type::String, self.memory_view(), 1),
        ensures
            match read_spec(Type::String, self.memory_view(), 1) {
                Err(e) => r == Err::<String, ReadError>(e),
                Ok(ValueModel::String(s)) => r matches Ok(m) && m@ == if s.len() == 0 {
                    vm_error@
                } else {
                    s + ": "@ + vm_error@
                },
                Ok(_) => false,
            },
    {
        match Type::String.read(self, 1) {
            Ok(Value::String(s)) => {
                if s.as_str().is_empty() {
                    Ok(vm_error.to_owned())
                } else {
                    let mut m = s;
                    m.append(": ");
                    m.append(vm_error);
                    Ok(m)
                }
            },
            Ok(_) => {
                // reading a string yields a string
                proof {
                    assert(false);
                }
                Ok(vm_error.to_owned())
            },
            Err(e) => Err(e),
        }
    }
}

} // verus!
