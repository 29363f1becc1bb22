//! Textual IP addresses. An IPv4 address is four decimal octets separated
//! by dots; an IPv6 address is up to eight 16-bit hexadecimal groups
//! separated by colons, with at most one `::` standing for a run of zero
//! groups. Each grammar is specified as a character-by-character state
//! machine, and the executable parsers are proved to return exactly what
//! the specification parse returns.

use vstd::prelude::*;

verus! {

pub open spec fn is_dec_digit(c: char) -> bool {
    48 <= c as int && c as int <= 57
}

pub open spec fn dec_val(c: char) -> int {
    c as int - 48
}

pub open spec fn is_hex_digit(c: char) -> bool {
    ||| is_dec_digit(c)
    ||| 97 <= c as int && c as int <= 102  // 'a' ..= 'f'
    ||| 65 <= c as int && c as int <= 70  // 'A' ..= 'F'
}

pub open spec fn hex_val(c: char) -> int {
    if is_dec_digit(c) {
        c as int - 48
    } else if 97 <= c as int && c as int <= 102 {
        c as int - 87
    } else {
        c as int - 55
    }
}

// ---------------------------------------------------------------- IPv4

/// Parser state for IPv4 text: `acc` is the value of the completed octets
/// in base 256, `parts` their number, and `cur`/`len` the value and digit
/// count of the octet being read. A failure is absorbing (`ok == false`).
pub ghost struct V4St {
    pub ok: bool,
    pub acc: int,
    pub parts: int,
    pub cur: int,
    pub len: int,
}

pub open spec fn v4_fail() -> V4St {
    V4St { ok: false, acc: 0, parts: 0, cur: 0, len: 0 }
}

pub open spec fn v4_init() -> V4St {
    V4St { ok: true, acc: 0, parts: 0, cur: 0, len: 0 }
}

/// One character of IPv4 text: a digit extends the current octet (no octet
/// exceeds 255 and no octet has a leading zero); a dot closes it (at most
/// four octets, none empty); anything else fails.
pub open spec fn v4_step(st: V4St, c: char) -> V4St {
    if !st.ok {
        st
    } else if is_dec_digit(c) {
        if st.len == 0 {
            V4St { ok: true, acc: st.acc, parts: st.parts, cur: dec_val(c), len: 1 }
        } else if st.cur == 0 {
            // a leading zero admits no further digit
            v4_fail()
        } else if st.cur * 10 + dec_val(c) > 255 {
            v4_fail()
        } else {
            V4St { ok: true, acc: st.acc, parts: st.parts, cur: st.cur * 10 + dec_val(c), len: st.len + 1 }
        }
    } else if c == '.' {
        if st.len == 0 || st.parts >= 3 {
            v4_fail()
        } else {
            V4St { ok: true, acc: st.acc * 256 + st.cur, parts: st.parts + 1, cur: 0, len: 0 }
        }
    } else {
        v4_fail()
    }
}

pub open spec fn v4_fold(s: Seq<char>, i: int, st: V4St) -> V4St
    decreases s.len() - i,
{
    if 0 <= i < s.len() {
        v4_fold(s, i + 1, v4_step(st, s[i]))
    } else {
        st
    }
}

/// The value of an IPv4 text, if it is one: the run of the state machine
/// must end with a fourth non-empty octet.
pub open spec fn spec_parse_ipv4(s: Seq<char>) -> Option<int> {
    let st = v4_fold(s, 0, v4_init());
    if st.ok && st.parts == 3 && st.len > 0 {
        Some(st.acc * 256 + st.cur)
    } else {
        None
    }
}

pub open spec fn ipv4_valid(s: Seq<char>) -> bool {
    spec_parse_ipv4(s) is Some
}

/// The state machine keeps every field of a live state in range; in
/// particular the accumulated value stays below 256 to the number of
/// completed octets.
pub open spec fn v4_inv(st: V4St) -> bool {
    st.ok ==> {
        &&& 0 <= st.parts <= 3
        &&& 0 <= st.cur <= 255
        &&& 0 <= st.len <= 3
        &&& (st.len == 2 ==> st.cur >= 10)
        &&& (st.len == 3 ==> st.cur >= 100)
        &&& 0 <= st.acc
        &&& (st.parts == 0 ==> st.acc == 0)
        &&& (st.parts == 1 ==> st.acc < 256)
        &&& (st.parts == 2 ==> st.acc < 65536)
        &&& (st.parts == 3 ==> st.acc < 16777216)
    }
}

pub proof fn lemma_v4_step_inv(st: V4St, c: char)
    requires
        v4_inv(st),
    ensures
        v4_inv(v4_step(st, c)),
{
}

/// Any parsed IPv4 value fits in 32 bits.
pub proof fn lemma_ipv4_value_bound(s: Seq<char>)
    ensures
        match spec_parse_ipv4(s) {
            Some(v) => 0 <= v && v < 0x1_0000_0000,
            None => true,
        },
{
    lemma_v4_fold_inv(s, 0, v4_init());
    let st = v4_fold(s, 0, v4_init());
    assert(v4_inv(st));
    if st.ok && st.parts == 3 && st.len > 0 {
        assert(st.acc * 256 + st.cur < 0x1_0000_0000);
    }
}

pub proof fn lemma_v4_fold_inv(s: Seq<char>, i: int, st: V4St)
    requires
        v4_inv(st),
    ensures
        v4_inv(v4_fold(s, i, st)),
    decreases s.len() - i,
{
    if 0 <= i < s.len() {
        lemma_v4_step_inv(st, s[i]);
        lemma_v4_fold_inv(s, i + 1, v4_step(st, s[i]));
    }
}

/// Parses IPv4 text to its 32-bit value; returns `None` exactly on text
/// that the grammar rejects.
pub fn parse_ipv4(s: &str) -> (r: Option<u32>)
    ensures
        match r {
            Some(v) => spec_parse_ipv4(s@) == Some(v as int),
            None => spec_parse_ipv4(s@) is None,
        },
{
    let n: usize = s.unicode_len();
    let mut ok: bool = true;
    let mut acc: u32 = 0;
    let mut parts: u32 = 0;
    let mut cur: u32 = 0;
    let mut len: u32 = 0;
    let ghost mut st = v4_init();
    let mut i: usize = 0;
    while i < n
        invariant
            n == s@.len(),
            i <= n,
            v4_fold(s@, 0, v4_init()) == v4_fold(s@, i as int, st),
            v4_inv(st),
            st.ok == ok,
            ok ==> st.acc == acc as int && st.parts == parts as int && st.cur == cur as int
                && st.len == len as int,
        decreases n - i,
    {
        let c = s.get_char(i);
        proof {
            assert(v4_fold(s@, i as int, st) == v4_fold(s@, i + 1, v4_step(st, s@[i as int])));
            lemma_v4_step_inv(st, s@[i as int]);
        }
        let d: u32 = c as u32;
        if ok {
            if 48 <= d && d <= 57 {
                if len == 0 {
                    cur = d - 48;
                    len = 1;
                } else if cur == 0 {
                    ok = false;
                } else if cur * 10 + (d - 48) > 255 {
                    ok = false;
                } else {
                    cur = cur * 10 + (d - 48);
                    len = len + 1;
                }
            } else if d == 46 {
                if len == 0 || parts >= 3 {
                    ok = false;
                } else {
                    acc = acc * 256 + cur;
                    parts = parts + 1;
                    cur = 0;
                    len = 0;
                }
            } else {
                ok = false;
            }
        }
        proof {
            assert(c == s@[i as int]);
            assert(c as int == d as int);
            st = v4_step(st, s@[i as int]);
        }
        i = i + 1;
    }
    if ok && parts == 3 && len > 0 {
        Some(acc * 256 + cur)
    } else {
        None
    }
}

// ---------------------------------------------------------------- IPv6

pub ghost enum V6Phase {
    Start,
    LeadColon,
    InGroup,
    AfterColon,
    AfterDc,
}

/// Parser state for IPv6 text: `hv`/`hc` hold the value (base 65536) and
/// count of the groups before any `::`, `tv`/`tc` those after it, `dc`
/// records that `::` was seen, and `cur`/`len` the group being read.
pub ghost struct V6St {
    pub ok: bool,
    pub phase: V6Phase,
    pub hv: int,
    pub hc: int,
    pub tv: int,
    pub tc: int,
    pub dc: bool,
    pub cur: int,
    pub len: int,
}

pub open spec fn v6_fail() -> V6St {
    V6St {
        ok: false,
        phase: V6Phase::Start,
        hv: 0,
        hc: 0,
        tv: 0,
        tc: 0,
        dc: false,
        cur: 0,
        len: 0,
    }
}

pub open spec fn v6_init() -> V6St {
    V6St {
        ok: true,
        phase: V6Phase::Start,
        hv: 0,
        hc: 0,
        tv: 0,
        tc: 0,
        dc: false,
        cur: 0,
        len: 0,
    }
}

/// Closes the group being read: before any `::` it joins the head groups
/// (at most eight in all); after `::` it joins the tail groups (head and
/// tail together at most seven, since `::` stands for at least one group).
pub open spec fn v6_close_group(st: V6St) -> V6St {
    if !st.dc {
        if st.hc >= 8 {
            v6_fail()
        } else {
            V6St {
                ok: true,
                phase: V6Phase::AfterColon,
                hv: st.hv * 65536 + st.cur,
                hc: st.hc + 1,
                tv: st.tv,
                tc: st.tc,
                dc: st.dc,
                cur: 0,
                len: 0,
            }
        }
    } else {
        if st.hc + st.tc >= 7 {
            v6_fail()
        } else {
            V6St {
                ok: true,
                phase: V6Phase::AfterColon,
                hv: st.hv,
                hc: st.hc,
                tv: st.tv * 65536 + st.cur,
                tc: st.tc + 1,
                dc: st.dc,
                cur: 0,
                len: 0,
            }
        }
    }
}

/// One character of IPv6 text.
pub open spec fn v6_step(st: V6St, c: char) -> V6St {
    if !st.ok {
        st
    } else if is_hex_digit(c) {
        match st.phase {
            V6Phase::Start | V6Phase::AfterColon | V6Phase::AfterDc => V6St {
                phase: V6Phase::InGroup,
                cur: hex_val(c),
                len: 1,
                ..st
            },
            V6Phase::InGroup => {
                if st.len >= 4 {
                    v6_fail()
                } else {
                    V6St { phase: V6Phase::InGroup, cur: st.cur * 16 + hex_val(c), len: st.len + 1, ..st }
                }
            },
            V6Phase::LeadColon => v6_fail(),
        }
    } else if c == ':' {
        match st.phase {
            V6Phase::Start => V6St { phase: V6Phase::LeadColon, ..st },
            V6Phase::LeadColon => V6St { phase: V6Phase::AfterDc, dc: true, ..st },
            V6Phase::InGroup => v6_close_group(st),
            V6Phase::AfterColon => {
                if st.dc {
                    v6_fail()
                } else {
                    V6St { phase: V6Phase::AfterDc, dc: true, ..st }
                }
            },
            V6Phase::AfterDc => v6_fail(),
        }
    } else {
        v6_fail()
    }
}

pub open spec fn v6_fold(s: Seq<char>, i: int, st: V6St) -> V6St
    decreases s.len() - i,
{
    if 0 <= i < s.len() {
        v6_fold(s, i + 1, v6_step(st, s[i]))
    } else {
        st
    }
}

/// 65536 to the `k`: the weight of a 16-bit group `k` places from the end.
pub open spec fn pow16(k: nat) -> int
    decreases k,
{
    if k == 0 {
        1
    } else {
        65536 * pow16((k - 1) as nat)
    }
}

/// The value of an accepted run: the head groups fill the top, the tail
/// groups the bottom, and `::` stands for the zero groups between.
pub open spec fn v6_finish(st: V6St) -> Option<int> {
    if !st.ok {
        None
    } else {
        let closed = if st.phase is InGroup {
            v6_close_group(st)
        } else {
            st
        };
        if !closed.ok {
            None
        } else if closed.phase is AfterColon && !(st.phase is InGroup) {
            None
        } else if closed.phase is Start || closed.phase is LeadColon {
            None
        } else if closed.dc {
            if closed.hc + closed.tc <= 7 {
                Some(closed.hv * pow16((8 - closed.hc) as nat) + closed.tv)
            } else {
                None
            }
        } else {
            if closed.hc == 8 {
                Some(closed.hv)
            } else {
                None
            }
        }
    }
}

pub open spec fn spec_parse_ipv6(s: Seq<char>) -> Option<int> {
    v6_finish(v6_fold(s, 0, v6_init()))
}

pub open spec fn ipv6_valid(s: Seq<char>) -> bool {
    spec_parse_ipv6(s) is Some
}

pub open spec fn v6_inv(st: V6St) -> bool {
    st.ok ==> {
        &&& 0 <= st.hc <= 8
        &&& 0 <= st.tc <= 7
        &&& st.hc + st.tc <= 8
        &&& 0 <= st.hv < pow16(st.hc as nat)
        &&& 0 <= st.tv < pow16(st.tc as nat)
        &&& 0 <= st.cur <= 0xffff
        &&& 0 <= st.len <= 4
        &&& (st.len == 0 ==> st.cur == 0)
        &&& (st.len == 1 ==> st.cur < 16)
        &&& (st.len == 2 ==> st.cur < 256)
        &&& (st.len == 3 ==> st.cur < 4096)
        &&& (!st.dc ==> st.tc == 0 && st.tv == 0)
    }
}

pub proof fn lemma_pow16_pos(k: nat)
    ensures
        pow16(k) >= 1,
    decreases k,
{
    if k > 0 {
        lemma_pow16_pos((k - 1) as nat);
    }
}

/// `pow16` is monotone in its exponent.
pub proof fn lemma_pow16_mono(a: nat, b: nat)
    requires
        a <= b,
    ensures
        pow16(a) <= pow16(b),
    decreases b,
{
    if a < b {
        lemma_pow16_mono(a, (b - 1) as nat);
        lemma_pow16_pos((b - 1) as nat);
    }
}

pub proof fn lemma_v6_close_inv(st: V6St)
    requires
        v6_inv(st),
        st.ok,
    ensures
        v6_inv(v6_close_group(st)),
{
    let c = v6_close_group(st);
    if c.ok {
        if !st.dc {
            assert(st.hc < 8);
            assert(st.hv * 65536 + st.cur < pow16((st.hc + 1) as nat)) by {
                assert(pow16((st.hc + 1) as nat) == 65536 * pow16(st.hc as nat));
                assert(st.hv <= pow16(st.hc as nat) - 1);
                assert(st.hv * 65536 <= (pow16(st.hc as nat) - 1) * 65536) by (nonlinear_arith)
                    requires
                        st.hv <= pow16(st.hc as nat) - 1,
                ;
            }
        } else {
            assert(st.tv * 65536 + st.cur < pow16((st.tc + 1) as nat)) by {
                assert(pow16((st.tc + 1) as nat) == 65536 * pow16(st.tc as nat));
                assert(st.tv <= pow16(st.tc as nat) - 1);
                assert(st.tv * 65536 <= (pow16(st.tc as nat) - 1) * 65536) by (nonlinear_arith)
                    requires
                        st.tv <= pow16(st.tc as nat) - 1,
                ;
            }
        }
    }
}

pub proof fn lemma_v6_step_inv(st: V6St, c: char)
    requires
        v6_inv(st),
    ensures
        v6_inv(v6_step(st, c)),
{
    if st.ok {
        if is_hex_digit(c) {
        } else if c == ':' {
            if st.phase is InGroup {
                lemma_v6_close_inv(st);
            }
        }
    }
}

pub proof fn lemma_v6_fold_inv(s: Seq<char>, i: int, st: V6St)
    requires
        v6_inv(st),
    ensures
        v6_inv(v6_fold(s, i, st)),
    decreases s.len() - i,
{
    if 0 <= i < s.len() {
        lemma_v6_step_inv(st, s[i]);
        lemma_v6_fold_inv(s, i + 1, v6_step(st, s[i]));
    }
}

/// Any parsed IPv6 value fits in 128 bits.
pub proof fn lemma_ipv6_value_bound(s: Seq<char>)
    ensures
        match spec_parse_ipv6(s) {
            Some(v) => 0 <= v && v < pow16(8),
            None => true,
        },
{
    lemma_v6_fold_inv(s, 0, v6_init());
    let st = v6_fold(s, 0, v6_init());
    if spec_parse_ipv6(s) is Some {
        let closed = if st.phase is InGroup {
            v6_close_group(st)
        } else {
            st
        };
        lemma_v6_close_inv_opt(st);
        lemma_v6_value_bound_closed(closed);
    }
}

proof fn lemma_v6_close_inv_opt(st: V6St)
    requires
        v6_inv(st),
    ensures
        st.ok && st.phase is InGroup ==> v6_inv(v6_close_group(st)),
{
    if st.ok && st.phase is InGroup {
        lemma_v6_close_inv(st);
    }
}

proof fn lemma_v6_value_bound_closed(closed: V6St)
    requires
        v6_inv(closed),
        closed.ok,
    ensures
        closed.dc && closed.hc + closed.tc <= 7 ==> 0 <= closed.hv * pow16((8 - closed.hc) as nat)
            + closed.tv < pow16(8),
        !closed.dc && closed.hc == 8 ==> 0 <= closed.hv < pow16(8),
{
    if closed.dc && closed.hc + closed.tc <= 7 {
        let k: nat = (8 - closed.hc) as nat;
        lemma_pow16_pos(k);
        assert(closed.hv * pow16(k) >= 0) by (nonlinear_arith)
            requires
                closed.hv >= 0,
                pow16(k) >= 1,
        ;
        assert(closed.hv * pow16(k) <= (pow16(closed.hc as nat) - 1) * pow16(k)) by (nonlinear_arith)
            requires
                closed.hv <= pow16(closed.hc as nat) - 1,
                pow16(k) >= 1,
        ;
        lemma_pow16_adds(closed.hc as nat, k);
        assert((pow16(closed.hc as nat) - 1) * pow16(k) == pow16(8) - pow16(k)) by (nonlinear_arith)
            requires
                pow16(closed.hc as nat) * pow16(k) == pow16(8),
        ;
        lemma_pow16_mono(closed.tc as nat, (k - 1) as nat);
        assert(pow16(closed.tc as nat) <= pow16((k - 1) as nat));
        assert(pow16(k) == 65536 * pow16((k - 1) as nat));
        lemma_pow16_pos((k - 1) as nat);
        assert(closed.tv < pow16(k));
    }
}

/// Splitting an exponent splits the power into a product.
pub proof fn lemma_pow16_adds(a: nat, b: nat)
    ensures
        pow16(a) * pow16(b) == pow16(a + b),
    decreases a,
{
    if a == 0 {
        assert(pow16(0) * pow16(b) == pow16(b));
    } else {
        lemma_pow16_adds((a - 1) as nat, b);
        assert(pow16(a) * pow16(b) == (65536 * pow16((a - 1) as nat)) * pow16(b));
        assert((65536 * pow16((a - 1) as nat)) * pow16(b) == 65536 * (pow16((a - 1) as nat)
            * pow16(b))) by (nonlinear_arith);
    }
}

/// Parses IPv6 text to its 128-bit value; returns `None` exactly on text
/// that the grammar rejects.
pub fn parse_ipv6(s: &str) -> (r: Option<u128>)
    ensures
        match r {
            Some(v) => spec_parse_ipv6(s@) == Some(v as int),
            None => spec_parse_ipv6(s@) is None,
        },
{
    let n: usize = s.unicode_len();
    let mut ok: bool = true;
    let mut phase: u8 = 0;  // 0 Start, 1 LeadColon, 2 InGroup, 3 AfterColon, 4 AfterDc
    let mut hv: u128 = 0;
    let mut hc: u32 = 0;
    let mut tv: u128 = 0;
    let mut tc: u32 = 0;
    let mut dc: bool = false;
    let mut cur: u32 = 0;
    let mut len: u32 = 0;
    let ghost mut st = v6_init();
    let mut i: usize = 0;
    while i < n
        invariant
            n == s@.len(),
            i <= n,
            v6_fold(s@, 0, v6_init()) == v6_fold(s@, i as int, st),
            v6_inv(st),
            st.ok == ok,
            ok ==> {
                &&& st.hv == hv as int
                &&& st.hc == hc as int
                &&& st.tv == tv as int
                &&& st.tc == tc as int
                &&& st.dc == dc
                &&& st.cur == cur as int
                &&& st.len == len as int
                &&& phase <= 4
                &&& (phase == 0 <==> st.phase is Start)
                &&& (phase == 1 <==> st.phase is LeadColon)
                &&& (phase == 2 <==> st.phase is InGroup)
                &&& (phase == 3 <==> st.phase is AfterColon)
                &&& (phase == 4 <==> st.phase is AfterDc)
            },
        decreases n - i,
    {
        let c = s.get_char(i);
        proof {
            assert(v6_fold(s@, i as int, st) == v6_fold(s@, i + 1, v6_step(st, s@[i as int])));
            lemma_v6_step_inv(st, s@[i as int]);
            if ok && st.phase is InGroup && s@[i as int] == ':' {
                lemma_v6_close_inv(st);
            }
        }
        let d: u32 = c as u32;
        let is_hex = (48 <= d && d <= 57) || (97 <= d && d <= 102) || (65 <= d && d <= 70);
        let hval: u32 = if 48 <= d && d <= 57 {
            d - 48
        } else if 97 <= d && d <= 102 {
            d - 87
        } else if 65 <= d && d <= 70 {
            d - 55
        } else {
            0
        };
        if ok {
            if is_hex {
                if phase == 0 || phase == 3 || phase == 4 {
                    phase = 2;
                    cur = hval;
                    len = 1;
                } else if phase == 2 {
                    if len >= 4 {
                        ok = false;
                    } else {
                        cur = cur * 16 + hval;
                        len = len + 1;
                    }
                } else {
                    ok = false;
                }
            } else if d == 58 {
                if phase == 0 {
                    phase = 1;
                } else if phase == 1 {
                    phase = 4;
                    dc = true;
                } else if phase == 2 {
                    // close the group being read
                    if !dc {
                        if hc >= 8 {
                            ok = false;
                        } else {
                            proof {
                                lemma_v6_close_inv(st);
                                assert(pow16((st.hc + 1) as nat) <= pow16(8)) by {
                                    lemma_pow16_mono((st.hc + 1) as nat, 8);
                                }
                                lemma_pow16_8_value();
                            }
                            hv = hv * 65536 + cur as u128;
                            hc = hc + 1;
                            phase = 3;
                            cur = 0;
                            len = 0;
                        }
                    } else {
                        if hc + tc >= 7 {
                            ok = false;
                        } else {
                            proof {
                                lemma_v6_close_inv(st);
                                assert(pow16((st.tc + 1) as nat) <= pow16(8)) by {
                                    lemma_pow16_mono((st.tc + 1) as nat, 8);
                                }
                                lemma_pow16_8_value();
                            }
                            tv = tv * 65536 + cur as u128;
                            tc = tc + 1;
                            phase = 3;
                            cur = 0;
                            len = 0;
                        }
                    }
                } else if phase == 3 {
                    if dc {
                        ok = false;
                    } else {
                        phase = 4;
                        dc = true;
                    }
                } else {
                    ok = false;
                }
            } else {
                ok = false;
            }
        }
        proof {
            assert(c == s@[i as int]);
            assert(c as int == d as int);
            st = v6_step(st, s@[i as int]);
        }
        i = i + 1;
    }
    // run the final close/accept decision, mirroring `v6_finish`
    if !ok {
        return None;
    }
    proof {
        if st.phase is InGroup {
            lemma_v6_close_inv(st);
        }
    }
    if phase == 2 {
        // close the last group
        if !dc {
            if hc >= 8 {
                return None;
            }
            proof {
                assert(pow16((st.hc + 1) as nat) <= pow16(8)) by {
                    lemma_pow16_mono((st.hc + 1) as nat, 8);
                }
                lemma_pow16_8_value();
            }
            hv = hv * 65536 + cur as u128;
            hc = hc + 1;
        } else {
            if hc + tc >= 7 {
                return None;
            }
            proof {
                assert(pow16((st.tc + 1) as nat) <= pow16(8)) by {
                    lemma_pow16_mono((st.tc + 1) as nat, 8);
                }
                lemma_pow16_8_value();
            }
            tv = tv * 65536 + cur as u128;
            tc = tc + 1;
        }
        proof {
            st = v6_close_group(st);
        }
    } else if phase == 0 || phase == 1 || phase == 3 {
        return None;
    }
    if dc {
        if hc + tc > 7 {
            return None;
        }
        // shift the head value up past the groups that `::` stands for
        let ghost hv0 = st.hv;
        let mut j: u32 = 0;
        let shift: u32 = 8 - hc;
        while j < shift
            invariant
                v6_inv(st),
                st.ok,
                st.dc,
                st.hc == hc as int,
                st.tc == tc as int,
                st.tv == tv as int,
                st.hc + st.tc <= 7,
                shift == 8 - hc,
                j <= shift,
                hv as int == hv0 * pow16(j as nat),
                hv0 == st.hv,
                0 <= hv as int,
                (hv as int) < pow16((hc + j) as nat),
            decreases shift - j,
        {
            proof {
                assert(pow16((hc + j + 1) as nat) == 65536 * pow16((hc + j) as nat));
                assert(hv * 65536 <= (pow16((hc + j) as nat) - 1) * 65536) by (nonlinear_arith)
                    requires
                        hv as int <= pow16((hc + j) as nat) - 1,
                ;
                assert(pow16((hc + j + 1) as nat) <= pow16(8)) by {
                    lemma_pow16_mono((hc + j + 1) as nat, 8);
                }
                lemma_pow16_8_value();
                assert(hv0 * pow16(j as nat) * 65536 == hv0 * pow16((j + 1) as nat)) by (nonlinear_arith)
                    requires
                        pow16((j + 1) as nat) == 65536 * pow16(j as nat),
                ;
            }
            hv = hv * 65536;
            j = j + 1;
        }
        proof {
            lemma_v6_value_bound_closed(st);
            assert(hv as int + tv as int == st.hv * pow16((8 - st.hc) as nat) + st.tv);
            lemma_pow16_8_value();
        }
        Some(hv + tv)
    } else {
        if hc != 8 {
            return None;
        }
        Some(hv)
    }
}

/// `pow16(8)` written out: one more than the largest 128-bit value.
pub proof fn lemma_pow16_8_value()
    ensures
        pow16(8) == 0x1_0000_0000_0000_0000_0000_0000_0000_0000,
{
    assert(pow16(0) == 1);
    assert(pow16(1) == 65536);
    assert(pow16(2) == 0x1_0000_0000);
    assert(pow16(3) == 0x1_0000_0000_0000);
    assert(pow16(4) == 0x1_0000_0000_0000_0000);
    assert(pow16(5) == 0x1_0000_0000_0000_0000_0000);
    assert(pow16(6) == 0x1_0000_0000_0000_0000_0000_0000);
    assert(pow16(7) == 0x1_0000_0000_0000_0000_0000_0000_0000);
    assert(pow16(8) == 0x1_0000_0000_0000_0000_0000_0000_0000_0000);
}

/// Whether the text contains a colon, which selects the IPv6 family.
pub fn contains_colon(s: &str) -> (b: bool)
    ensures
        b == s@.contains(':'),
{
    let n: usize = s.unicode_len();
    let mut i: usize = 0;
    while i < n
        invariant
            n == s@.len(),
            i <= n,
            forall|j: int| 0 <= j < i ==> s@[j] != ':',
        decreases n - i,
    {
        if s.get_char(i) == ':' {
            proof {
                assert(s@.contains(':')) by {
                    assert(s@[i as int] == ':');
                }
            }
            return true;
        }
        i = i + 1;
    }
    proof {
        assert(!s@.contains(':')) by {
            if s@.contains(':') {
                let j = choose|j: int| 0 <= j < s@.len() && s@[j] == ':';
                assert(s@[j] != ':');
            }
        }
    }
    false
}

} // verus!
