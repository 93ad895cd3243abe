//! The dispatcher: classifies each input token as CIDR-shaped or domain,
//! routes it through the splitter or the generalizer, and runs every
//! produced candidate through the hash matcher.

use vstd::prelude::*;
use vstd::string::{StrSliceExecFns, StringExecFns};
use crate::block_size;
use crate::cidr::{
    cidr_parse_of, lemma_leaf_at, lemma_leaves_cover, lemma_leaves_len, lemma_masked_prefix_wf,
    leaves, parse_cidr, CidrRange,
};
use crate::cursor::quad_pat;
use crate::domains::{domain_to_search_list, generalize_spec};
use crate::store::{is_match, sha1_hex_of, BlacklistStore};
use crate::strings::u8_to_string;

verus! {

/// The dotted-quad rendering of a 32-bit address value.
pub open spec fn quad_of(x: int) -> Seq<char>
    recommends
        0 <= x < 0x1_0000_0000,
{
    quad_pat(
        (x / 0x100_0000) as u8,
        ((x / 0x1_0000) % 256) as u8,
        ((x / 256) % 256) as u8,
        (x % 256) as u8,
    )
}

/// The candidate strings of a CIDR token: every covered address, rendered
/// as a dotted quad, ascending.
pub open spec fn range_candidates(p: u32, b: u8) -> Seq<Seq<char>> {
    (CidrRange { prefix: p, bits: b }).addr_seq().map_values(|x: int| quad_of(x))
}

/// The matches that probing a list of candidates in order reports: for each
/// candidate whose digest is stored, the (hash, candidate) pair, in
/// candidate order, duplicates kept.
pub open spec fn hits_of(store: Seq<Seq<char>>, cands: Seq<Seq<char>>) -> Seq<
    (Seq<char>, Seq<char>),
>
    decreases cands.len(),
{
    if cands.len() == 0 {
        Seq::empty()
    } else {
        hits_of(store, cands.drop_last()) + (if is_match(store, cands.last()) {
            seq![(sha1_hex_of(cands.last()), cands.last())]
        } else {
            Seq::empty()
        })
    }
}

proof fn lemma_hits_push(store: Seq<Seq<char>>, cands: Seq<Seq<char>>, x: Seq<char>)
    ensures
        hits_of(store, cands.push(x)) == hits_of(store, cands) + (if is_match(store, x) {
            seq![(sha1_hex_of(x), x)]
        } else {
            Seq::empty()
        }),
{
    assert(cands.push(x).drop_last() =~~= cands);
    assert(cands.push(x).last() == x);
}

/// The views of reported (hash, candidate) pairs.
pub open spec fn pairs_of(v: Seq<(String, String)>) -> Seq<(Seq<char>, Seq<char>)> {
    v.map_values(|p: (String, String)| (p.0@, p.1@))
}

/// Renders an address value as its dotted quad, the exact candidate string
/// the matcher hashes.
pub fn addr_to_string(x: u32) -> (s: String)
    ensures
        s@ == quad_of(x as int),
{
    proof {
        reveal_strlit(".");
    }
    let o1 = (x / 0x100_0000) as u8;
    let o2 = ((x / 0x1_0000) % 256) as u8;
    let o3 = ((x / 256) % 256) as u8;
    let o4 = (x % 256) as u8;
    let mut s = u8_to_string(o1);
    s.append(".");
    let t = u8_to_string(o2);
    s.append(t.as_str());
    s.append(".");
    let u = u8_to_string(o3);
    s.append(u.as_str());
    s.append(".");
    let v = u8_to_string(o4);
    s.append(v.as_str());
    proof {
        assert(s@ =~= quad_of(x as int));
    }
    s
}

/// One unit of work: classify the token (CIDR-shaped if and only if the
/// CIDR parser accepts it, a domain otherwise), expand it — every address
/// of a CIDR through the recursive splitter, every wildcard ancestor of a
/// domain through the generalizer — and probe each candidate, reporting
/// each (hash, candidate) match in candidate order.
pub fn process_token(store: &BlacklistStore, token: &str) -> (out: Vec<(String, String)>)
    requires
        store.wf(),
    ensures
        match cidr_parse_of(token@) {
            Some(pb) => pairs_of(out@) == hits_of(store@, range_candidates(pb.0, pb.1)),
            None => pairs_of(out@) == hits_of(store@, generalize_spec(token@)),
        },
{
    let parsed = parse_cidr(token);
    let mut out: Vec<(String, String)> = Vec::new();
    match parsed {
        Some((p, b)) => {
            proof {
                lemma_masked_prefix_wf(p, b);
            }
            let range = CidrRange { prefix: p, bits: b };
            let pieces = range.singletons();
            let ghost cands = range_candidates(p, b);
            proof {
                lemma_leaves_cover(range);
                lemma_leaves_len(range);
                assert(pairs_of(out@) =~= hits_of(store@, cands.subrange(0, 0)));
            }
            let n = pieces.len();
            let mut li: usize = 0;
            while li < n
                invariant
                    store.wf(),
                    0 <= li <= n,
                    range.wf(),
                    range == (CidrRange { prefix: p, bits: b }),
                    pieces@ == leaves(range),
                    n == pieces@.len(),
                    n == block_size(b as int),
                    cands == range_candidates(p, b),
                    cands.len() == n,
                    pairs_of(out@) == hits_of(store@, cands.subrange(0, li as int)),
                decreases n - li,
            {
                proof {
                    lemma_leaf_at(range, li as int);
                    lemma_leaves_cover(range);
                }
                let leaf = pieces[li];
                let addrs = leaf.addresses();
                let cand = addr_to_string(addrs[0]);
                proof {
                    assert(leaf.addr_seq().len() == 1);
                    assert(addrs[0] as int == leaf.prefix);
                    assert(cand@ == cands[li as int]);
                }
                let ghost pre = out@;
                match store.probe(cand.as_str()) {
                    Some(hex) => {
                        out.push((hex, cand));
                    },
                    None => {},
                }
                proof {
                    lemma_hits_push(store@, cands.subrange(0, li as int), cands[li as int]);
                    assert(cands.subrange(0, li + 1) =~~= cands.subrange(0, li as int).push(
                        cands[li as int],
                    ));
                    assert(pairs_of(out@) =~= hits_of(store@, cands.subrange(0, li + 1)));
                }
                li = li + 1;
            }
            proof {
                assert(cands.subrange(0, cands.len() as int) =~~= cands);
            }
        },
        None => {
            let cands = domain_to_search_list(token);
            let ghost cv = generalize_spec(token@);
            proof {
                assert(pairs_of(out@) =~= hits_of(store@, cv.subrange(0, 0)));
            }
            let n = cands.len();
            let mut i: usize = 0;
            while i < n
                invariant
                    store.wf(),
                    0 <= i <= n,
                    n == cands@.len(),
                    cv == cands.deep_view(),
                    cv == generalize_spec(token@),
                    pairs_of(out@) == hits_of(store@, cv.subrange(0, i as int)),
                decreases n - i,
            {
                let cand = cands[i].clone();
                let ghost pre = out@;
                match store.probe(cand.as_str()) {
                    Some(hex) => {
                        out.push((hex, cand));
                    },
                    None => {},
                }
                proof {
                    lemma_hits_push(store@, cv.subrange(0, i as int), cv[i as int]);
                    assert(cv.subrange(0, i + 1) =~~= cv.subrange(0, i as int).push(cv[i as int]));
                    assert(pairs_of(out@) =~= hits_of(store@, cv.subrange(0, i + 1)));
                }
                i = i + 1;
            }
            proof {
                assert(cv.subrange(0, cv.len() as int) =~~= cv);
            }
        },
    }
    out
}

} // verus!
