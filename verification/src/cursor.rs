//! The IPv4 space enumerator: a four-octet cursor that walks the address
//! space low-to-high, emitting wildcard patterns at each granularity and
//! skipping blocks that the skip predicate table marks as never relevant.

use vstd::prelude::*;
use crate::strings::{dec_of, u8_to_string};
use vstd::string::StringExecFns;

verus! {

/// The enumerator's traversal state: a partially specified IPv4 address,
/// populated strictly left to right.
pub struct IPv4Iterator {
    pub a: u8,
    pub b: Option<u8>,
    pub c: Option<u8>,
    pub d: Option<u8>,
}

impl IPv4Iterator {
    /// Structural invariant: fields populate left to right, and a populated
    /// field past the first never rests at 255 (a carry clears it instead).
    pub open spec fn inv(self) -> bool {
        &&& self.c is Some ==> self.b is Some
        &&& self.d is Some ==> self.c is Some
        &&& self.b is Some ==> self.b->0 <= 254
        &&& self.c is Some ==> self.c->0 <= 254
        &&& self.d is Some ==> self.d->0 <= 254
    }

    /// First-octet skip rules: this host, RFC1918 10/8, DoD 26/8 28/8 29/8
    /// 30/8, loopback, multicast, and the reserved future-use block. The
    /// chosen terminal policy: 255 is not itself skip-marked; the cursor
    /// ends the sequence as soon as its first octet reaches 255.
    pub open spec fn first_octet_skip(a: u8) -> bool {
        ||| a == 0
        ||| a == 10
        ||| a == 26
        ||| a == 28
        ||| a == 29
        ||| a == 30
        ||| a == 127
        ||| 224 <= a <= 239
        ||| 240 <= a <= 254
    }

    /// Second-octet skip rules: CGNAT 100.64/10, RFC1918 172.16/12 and
    /// 192.168/16, and the 198.18/15 benchmarking block. Third-octet rules
    /// are a known extension point and are deliberately absent.
    pub open spec fn second_octet_skip(a: u8, b: u8) -> bool {
        ||| a == 100 && 64 <= b <= 127
        ||| a == 172 && 16 <= b <= 31
        ||| a == 192 && b == 168
        ||| a == 198 && 18 <= b <= 19
    }

    /// The populated prefix matches no skip rule.
    pub open spec fn prefix_clean(self) -> bool {
        &&& !Self::first_octet_skip(self.a)
        &&& self.b is Some ==> !Self::second_octet_skip(self.a, self.b->0)
    }

    /// One application of the skip table: advance past the coarsest matching
    /// rule, or leave a clean prefix unchanged.
    pub open spec fn skip_once(self) -> Self {
        if Self::first_octet_skip(self.a) {
            IPv4Iterator { a: (self.a + 1) as u8, b: self.b, c: self.c, d: self.d }
        } else if self.b is Some && Self::second_octet_skip(self.a, self.b->0) {
            IPv4Iterator { a: self.a, b: Some((self.b->0 + 1) as u8), c: self.c, d: self.d }
        } else {
            self
        }
    }

    /// Termination measure for the skip fixed point: skipping always moves
    /// (first octet, second octet) strictly upward.
    pub open spec fn skip_measure(self) -> int {
        (255 - self.a) * 256 + (if self.b is Some {
            255 - self.b->0
        } else {
            255
        })
    }

    /// The fixed point of the skip table: re-applied until no rule matches.
    pub open spec fn resolve(self) -> Self
        decreases self.skip_measure(),
    {
        if self.prefix_clean() {
            self
        } else {
            self.skip_once().resolve()
        }
    }

    /// The resolved cursor is clean, and resolving again changes nothing:
    /// the skip predicate table reaches a true fixed point, so no output is
    /// ever emitted from a prefix that still matches a rule.
    pub proof fn lemma_resolve_fixed_point(self)
        ensures
            self.resolve().prefix_clean(),
            self.resolve().resolve() == self.resolve(),
        decreases self.skip_measure(),
    {
        if self.prefix_clean() {
        } else {
            self.skip_once().lemma_resolve_fixed_point();
        }
    }

    /// Resolving preserves the structural invariant and never touches the
    /// finer fields.
    pub proof fn lemma_resolve_inv(self)
        requires
            self.inv(),
        ensures
            self.resolve().inv(),
            self.resolve().c == self.c,
            self.resolve().d == self.d,
        decreases self.skip_measure(),
    {
        if self.prefix_clean() {
        } else {
            self.skip_once().lemma_resolve_inv();
        }
    }

    /// A fresh cursor, at the very start of the space.
    pub fn new() -> (r: IPv4Iterator)
        ensures
            r.a == 0,
            r.b is None,
            r.c is None,
            r.d is None,
            r.inv(),
    {
        IPv4Iterator { a: 0, b: None, c: None, d: None }
    }

    /// Tests the populated prefix against the skip table once. A match
    /// advances past the matched block and reports `true` (retry); a clean
    /// prefix is left unchanged.
    pub fn skips(&mut self) -> (r: bool)
        requires
            old(self).inv(),
        ensures
            final(self).inv(),
            r == !old(self).prefix_clean(),
            *final(self) == old(self).skip_once(),
    {
        let a = self.a;
        if a == 0 || a == 10 || a == 26 || a == 28 || a == 29 || a == 30 || a == 127
            || (224 <= a && a <= 239) || (240 <= a && a <= 254) {
            self.a = a + 1;
            return true;
        }
        if let Some(b) = self.b {
            if (a == 100 && 64 <= b && b <= 127) || (a == 172 && 16 <= b && b <= 31)
                || (a == 192 && b == 168) || (a == 198 && 18 <= b && b <= 19) {
                self.b = Some(b + 1);
                return true;
            }
        }
        false
    }

    /// Quad increment with carry: the successor of a fully specified
    /// address, clearing a field when it carries so that the enumerator
    /// descends afresh into the next block. Incrementing the first octet
    /// past 254 parks the cursor at 255, the terminal state.
    pub fn step(&mut self) -> (r: bool)
        requires
            old(self).inv(),
            old(self).b is Some,
            old(self).c is Some,
            old(self).d is Some,
            old(self).a <= 254,
        ensures
            final(self).inv(),
            r,
            ({
                let a = old(self).a;
                let b = old(self).b->0;
                let c = old(self).c->0;
                let d = old(self).d->0;
                if d < 254 {
                    *final(self) == IPv4Iterator { a, b: Some(b), c: Some(c), d: Some((d + 1) as u8) }
                } else if c < 254 {
                    *final(self) == IPv4Iterator { a, b: Some(b), c: Some((c + 1) as u8), d: None }
                } else if b < 254 {
                    *final(self) == IPv4Iterator { a, b: Some((b + 1) as u8), c: None, d: None }
                } else {
                    *final(self) == IPv4Iterator { a: (a + 1) as u8, b: None, c: None, d: None }
                }
            }),
    {
        let d = self.d.unwrap();
        if d < 254 {
            self.d = Some(d + 1);
            return true;
        }
        self.d = None;
        let c = self.c.unwrap();
        if c < 254 {
            self.c = Some(c + 1);
            return true;
        }
        self.c = None;
        let b = self.b.unwrap();
        if b < 254 {
            self.b = Some(b + 1);
            return true;
        }
        self.b = None;
        self.a = self.a + 1;
        true
    }
}

/// The wildcard pattern for a whole /8: `"{a}.*"`.
pub open spec fn pat_slash8(a: u8) -> Seq<char> {
    dec_of(a as int) + seq!['.', '*']
}

/// The wildcard pattern for a /16: `"{a}.{b}.*"`.
pub open spec fn pat_slash16(a: u8, b: u8) -> Seq<char> {
    dec_of(a as int) + seq!['.'] + dec_of(b as int) + seq!['.', '*']
}

/// The wildcard pattern for a /24: `"{a}.{b}.{c}.*"`.
pub open spec fn pat_slash24(a: u8, b: u8, c: u8) -> Seq<char> {
    dec_of(a as int) + seq!['.'] + dec_of(b as int) + seq!['.'] + dec_of(c as int)
        + seq!['.', '*']
}

/// A full dotted quad: `"{a}.{b}.{c}.{d}"`.
pub open spec fn quad_pat(a: u8, b: u8, c: u8, d: u8) -> Seq<char> {
    dec_of(a as int) + seq!['.'] + dec_of(b as int) + seq!['.'] + dec_of(c as int) + seq!['.']
        + dec_of(d as int)
}

impl IPv4Iterator {
    /// What one pull of the enumerator emits, given the resolved cursor:
    /// the pattern at the first granularity not yet descended to, or
    /// nothing once the first octet has reached the terminal value.
    pub open spec fn emission(m: Self) -> Option<Seq<char>> {
        if m.a == 255 {
            None
        } else if m.b is None {
            Some(pat_slash8(m.a))
        } else if m.c is None {
            Some(pat_slash16(m.a, m.b->0))
        } else if m.d is None {
            Some(pat_slash24(m.a, m.b->0, m.c->0))
        } else {
            Some(quad_pat(m.a, m.b->0, m.c->0, m.d->0))
        }
    }

    /// The cursor state after one pull, given the resolved cursor: descend
    /// one granularity, or advance past a fully emitted address.
    pub open spec fn successor(m: Self) -> Self {
        if m.a == 255 {
            m
        } else if m.b is None {
            IPv4Iterator { a: m.a, b: Some(0), c: None, d: None }
        } else if m.c is None {
            IPv4Iterator { a: m.a, b: m.b, c: Some(0), d: None }
        } else if m.d is None {
            IPv4Iterator { a: m.a, b: m.b, c: m.c, d: Some(0) }
        } else {
            let b = m.b->0;
            let c = m.c->0;
            let d = m.d->0;
            if d < 254 {
                IPv4Iterator { a: m.a, b: m.b, c: m.c, d: Some((d + 1) as u8) }
            } else if c < 254 {
                IPv4Iterator { a: m.a, b: m.b, c: Some((c + 1) as u8), d: None }
            } else if b < 254 {
                IPv4Iterator { a: m.a, b: Some((b + 1) as u8), c: None, d: None }
            } else {
                IPv4Iterator { a: (m.a + 1) as u8, b: None, c: None, d: None }
            }
        }
    }

    /// One pull of the lazy sequence. Drives the skip table to its fixed
    /// point, then either ends the sequence (first octet at 255) or emits
    /// the pattern at the granularity reached and descends or advances.
    /// In particular no emitted pattern ever begins with a skip-marked
    /// first octet, nor a skip-marked (first, second) pair.
    pub fn next(&mut self) -> (r: Option<String>)
        requires
            old(self).inv(),
        ensures
            final(self).inv(),
            ({
                let m = old(self).resolve();
                &&& m.prefix_clean()
                &&& *final(self) == Self::successor(m)
                &&& match r {
                    None => Self::emission(m) is None && m.a == 255,
                    Some(s) => Self::emission(m) == Some(s@) && !Self::first_octet_skip(m.a)
                        && (m.b is Some ==> !Self::second_octet_skip(m.a, m.b->0)),
                }
            }),
    {
        let ghost orig = *self;
        proof {
            orig.lemma_resolve_fixed_point();
            orig.lemma_resolve_inv();
        }
        loop
            invariant
                self.inv(),
                self.resolve() == orig.resolve(),
            ensures
                self.inv(),
                self.prefix_clean(),
                self.resolve() == orig.resolve(),
            decreases self.skip_measure(),
        {
            if !self.skips() {
                break;
            }
        }
        proof {
            assert(*self == orig.resolve());
            reveal_strlit(".*");
            reveal_strlit(".");
        }
        if self.a == 255 {
            return None;
        }
        if self.b.is_none() {
            self.b = Some(0);
            let mut s = u8_to_string(self.a);
            s.append(".*");
            proof {
                assert(s@ =~= pat_slash8(self.a));
            }
            Some(s)
        } else if self.c.is_none() {
            self.c = Some(0);
            let mut s = u8_to_string(self.a);
            s.append(".");
            let t = u8_to_string(self.b.unwrap());
            s.append(t.as_str());
            s.append(".*");
            proof {
                assert(s@ =~= pat_slash16(self.a, self.b->0));
            }
            Some(s)
        } else if self.d.is_none() {
            self.d = Some(0);
            let mut s = u8_to_string(self.a);
            s.append(".");
            let t = u8_to_string(self.b.unwrap());
            s.append(t.as_str());
            s.append(".");
            let u = u8_to_string(self.c.unwrap());
            s.append(u.as_str());
            s.append(".*");
            proof {
                assert(s@ =~= pat_slash24(self.a, self.b->0, self.c->0));
            }
            Some(s)
        } else {
            let mut s = u8_to_string(self.a);
            s.append(".");
            let t = u8_to_string(self.b.unwrap());
            s.append(t.as_str());
            s.append(".");
            let u = u8_to_string(self.c.unwrap());
            s.append(u.as_str());
            s.append(".");
            let v = u8_to_string(self.d.unwrap());
            s.append(v.as_str());
            proof {
                assert(s@ =~= quad_pat(self.a, self.b->0, self.c->0, self.d->0));
            }
            let stepped = self.step();
            if stepped {
                Some(s)
            } else {
                None
            }
        }
    }
}

} // verus!
