//! The blacklist store and hash matcher: a sorted, probeable set of content
//! hashes, probed by hashing a candidate and binary-searching the store.

use vstd::prelude::*;
use vstd::seq_lib::to_multiset_insert;
use crate::strings::{lex_le, lemma_lex_le_antisymmetric, lemma_lex_le_total,
    lemma_lex_le_transitive, str_le};

verus! {

/// Ascending lexicographic order over the whole sequence.
pub open spec fn sorted(s: Seq<Seq<char>>) -> bool {
    forall|i: int, j: int| 0 <= i < j < s.len() ==> lex_le(#[trigger] s[i], #[trigger] s[j])
}

/// The hex-encoded SHA-1 digest of a candidate string. Named, not spelled
/// out: the digest is a pure function of the characters, computed by the
/// crypto crate.
pub uninterp spec fn sha1_hex_of(s: Seq<char>) -> Seq<char>;

/// Relies on the crypto crate's `Sha1` (`new`, `input_str`, `result_str`):
/// the hex-encoded digest depends on the candidate's characters alone.
#[verifier::external_body]
fn sha1_hex(s: &str) -> (r: String)
    ensures
        r@ == sha1_hex_of(s@),
{
    let mut hasher = crypto::sha1::Sha1::new();
    crypto::digest::Digest::input_str(&mut hasher, s);
    crypto::digest::Digest::result_str(&mut hasher)
}

/// A candidate matches a store when its digest appears among the stored
/// hashes.
pub open spec fn is_match(store: Seq<Seq<char>>, candidate: Seq<char>) -> bool {
    store.contains(sha1_hex_of(candidate))
}

/// The in-memory blacklist: hash strings, sorted ascending once at load,
/// read-only afterwards.
pub struct BlacklistStore {
    hashes: Vec<String>,
}

impl View for BlacklistStore {
    type V = Seq<Seq<char>>;

    closed spec fn view(&self) -> Seq<Seq<char>> {
        self.hashes.deep_view()
    }
}

impl BlacklistStore {
    /// The store stays sorted for the lifetime of every search.
    pub open spec fn wf(self) -> bool {
        sorted(self@)
    }

    /// Loads the store: the given lines (hash strings, duplicates and empty
    /// lines tolerated) sorted ascending. The result holds exactly the
    /// given lines, as a multiset.
    pub fn new(lines: &Vec<String>) -> (s: BlacklistStore)
        ensures
            s.wf(),
            s@.to_multiset() == lines.deep_view().to_multiset(),
    {
        let ghost lv = lines.deep_view();
        let mut hashes: Vec<String> = Vec::new();
        proof {
            assert(hashes.deep_view() =~= lv.subrange(0, 0));
        }
        let mut i: usize = 0;
        while i < lines.len()
            invariant
                0 <= i <= lv.len(),
                lv == lines.deep_view(),
                sorted(hashes.deep_view()),
                hashes.deep_view().to_multiset() == lv.subrange(0, i as int).to_multiset(),
            decreases lv.len() - i,
        {
            let x = lines[i].clone();
            let ghost dv = hashes.deep_view();
            let n = hashes.len();
            let mut pos: usize = 0;
            loop
                invariant
                    0 <= pos <= n,
                    n == dv.len(),
                    dv == hashes.deep_view(),
                    x@ == lv[i as int],
                    forall|j: int| 0 <= j < pos ==> lex_le(#[trigger] dv[j], x@),
                ensures
                    0 <= pos <= n,
                    forall|j: int| 0 <= j < pos ==> lex_le(#[trigger] dv[j], x@),
                    pos < n ==> !lex_le(dv[pos as int], x@),
                decreases n - pos,
            {
                if pos == n {
                    break;
                }
                if str_le(hashes[pos].as_str(), x.as_str()) {
                    pos = pos + 1;
                } else {
                    break;
                }
            }
            hashes.insert(pos, x);
            proof {
                let updated = dv.insert(pos as int, x@);
                dv.insert_ensures(pos as int, x@);
                assert(hashes.deep_view() =~= updated);
                to_multiset_insert(dv, pos as int, x@);
                lv.subrange(0, i as int).to_multiset_ensures();
                assert(lv.subrange(0, i + 1) =~= lv.subrange(0, i as int).push(lv[i as int]));
                assert(hashes.deep_view().to_multiset() =~= lv.subrange(0, i + 1).to_multiset());
                assert forall|a: int, b: int| 0 <= a < b < updated.len() implies lex_le(
                    #[trigger] updated[a],
                    #[trigger] updated[b],
                ) by {
                    let p = pos as int;
                    if b < p {
                    } else if a < p && b == p {
                    } else if a < p && b > p {
                        assert(updated[b] == dv[b - 1]);
                    } else if a == p {
                        if p < dv.len() {
                            lemma_lex_le_total(x@, dv[p]);
                            assert(lex_le(x@, dv[p]));
                            assert(updated[b] == dv[b - 1]);
                            if b - 1 > p {
                                lemma_lex_le_transitive(x@, dv[p], dv[b - 1]);
                            }
                        }
                    } else {
                        assert(updated[a] == dv[a - 1]);
                        assert(updated[b] == dv[b - 1]);
                    }
                }
            }
            i = i + 1;
        }
        proof {
            assert(lv.subrange(0, lv.len() as int) =~= lv);
        }
        BlacklistStore { hashes }
    }

    /// How many hashes the store holds.
    pub fn len(&self) -> (n: usize)
        ensures
            n == self@.len(),
    {
        self.hashes.len()
    }

    /// Binary search for an exact hash, against the sorted store.
    fn contains_hash(&self, h: &String) -> (found: bool)
        requires
            self.wf(),
        ensures
            found == self@.contains(h@),
    {
        let ghost dv = self@;
        let n = self.hashes.len();
        let mut lo: usize = 0;
        let mut hi: usize = n;
        while lo < hi
            invariant
                0 <= lo <= hi <= n,
                n == dv.len(),
                dv == self@,
                self.wf(),
                forall|j: int| 0 <= j < lo ==> !lex_le(h@, #[trigger] dv[j]),
                forall|j: int| hi <= j < n ==> lex_le(h@, #[trigger] dv[j]),
            decreases hi - lo,
        {
            let mid = lo + (hi - lo) / 2;
            if str_le(h.as_str(), self.hashes[mid].as_str()) {
                proof {
                    assert forall|j: int| mid <= j < n implies lex_le(h@, #[trigger] dv[j]) by {
                        if j > mid {
                            lemma_lex_le_transitive(h@, dv[mid as int], dv[j]);
                        }
                    }
                }
                hi = mid;
            } else {
                proof {
                    assert forall|j: int| 0 <= j <= mid implies !lex_le(h@, #[trigger] dv[j]) by {
                        if j < mid && lex_le(h@, dv[j]) {
                            lemma_lex_le_transitive(h@, dv[j], dv[mid as int]);
                        }
                    }
                }
                lo = mid + 1;
            }
        }
        if lo < n {
            let found = self.hashes[lo].eq(h);
            proof {
                if found {
                    assert(dv[lo as int] == h@);
                    assert(dv.contains(h@));
                } else {
                    assert forall|k: int| 0 <= k < n implies dv[k] != h@ by {
                        lemma_lex_le_total(h@, h@);
                        if k < lo {
                            assert(!lex_le(h@, dv[k]));
                        } else if k > lo {
                            if dv[k] == h@ {
                                assert(lex_le(h@, dv[lo as int]));
                                assert(lex_le(dv[lo as int], dv[k]));
                                lemma_lex_le_antisymmetric(h@, dv[lo as int]);
                            }
                        }
                    }
                }
            }
            found
        } else {
            proof {
                assert forall|k: int| 0 <= k < n implies dv[k] != h@ by {
                    lemma_lex_le_total(h@, h@);
                    assert(!lex_le(h@, dv[k]));
                }
            }
            false
        }
    }

    /// The hash matcher: computes the candidate's hex digest and probes the
    /// sorted store. Yields the matched hash exactly when the digest is
    /// stored; the caller owns any reporting.
    pub fn probe(&self, candidate: &str) -> (r: Option<String>)
        requires
            self.wf(),
        ensures
            r is Some <==> is_match(self@, candidate@),
            r is Some ==> (r->0)@ == sha1_hex_of(candidate@),
    {
        let hex = sha1_hex(candidate);
        if self.contains_hash(&hex) {
            Some(hex)
        } else {
            None
        }
    }
}

/// Hashing is idempotent: two digests of the same candidate are the same
/// digest.
pub proof fn lemma_digest_deterministic(s: Seq<char>, r1: Seq<char>, r2: Seq<char>)
    requires
        r1 == sha1_hex_of(s),
        r2 == sha1_hex_of(s),
    ensures
        r1 == r2,
{
}

/// Probing is deterministic: the outcome is a function of the store's
/// contents and the candidate alone, so probe order cannot change any
/// result.
pub proof fn lemma_probe_deterministic(
    store: Seq<Seq<char>>,
    candidate: Seq<char>,
    b1: bool,
    b2: bool,
)
    requires
        b1 == is_match(store, candidate),
        b2 == is_match(store, candidate),
    ensures
        b1 == b2,
{
}

} // verus!
