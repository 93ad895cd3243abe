//! The domain generalizer: expands a dot-separated domain into its ordered
//! family of wildcard ancestor patterns.

use vstd::prelude::*;
use vstd::string::{StrSliceExecFns, StringExecFns};

verus! {

/// Index of the first `'.'` in `s`, or `s.len()` if there is none.
pub open spec fn first_dot(s: Seq<char>) -> nat
    decreases s.len(),
{
    if s.len() == 0 {
        0
    } else if s[0] == '.' {
        0
    } else {
        1 + first_dot(s.drop_first())
    }
}

pub proof fn lemma_first_dot_le(s: Seq<char>)
    ensures
        first_dot(s) <= s.len(),
        first_dot(s) < s.len() ==> s[first_dot(s) as int] == '.',
        forall|j: int| 0 <= j < first_dot(s) ==> s[j] != '.',
    decreases s.len(),
{
    if s.len() == 0 {
    } else if s[0] == '.' {
    } else {
        lemma_first_dot_le(s.drop_first());
        assert forall|j: int| 0 <= j < first_dot(s) implies s[j] != '.' by {
            if j > 0 {
                assert(s.drop_first()[j - 1] == s[j]);
            }
        }
    }
}

/// The first-dot index is pinned by its characterization: everything before
/// it is dot-free, and it lands on a dot or at the end.
pub proof fn lemma_first_dot_char(s: Seq<char>, i: int)
    requires
        0 <= i <= s.len(),
        forall|j: int| 0 <= j < i ==> s[j] != '.',
        i < s.len() ==> s[i] == '.',
    ensures
        first_dot(s) == i,
    decreases s.len(),
{
    if s.len() == 0 {
    } else if s[0] == '.' {
        assert(i == 0);
    } else {
        assert(i > 0);
        assert forall|j: int| 0 <= j < i - 1 implies s.drop_first()[j] != '.' by {
            assert(s.drop_first()[j] == s[j + 1]);
        }
        lemma_first_dot_char(s.drop_first(), i - 1);
    }
}

#[via_fn]
proof fn split_dot_dec(s: Seq<char>) {
    lemma_first_dot_le(s);
}

/// Splitting on `'.'`, exactly as `split('.')` does: every maximal run
/// between dots becomes a label, and empty labels are kept.
pub open spec fn split_dot(s: Seq<char>) -> Seq<Seq<char>>
    decreases s.len()
        via split_dot_dec
{
    let i = first_dot(s) as int;
    if i == s.len() {
        seq![s]
    } else {
        seq![s.subrange(0, i)] + split_dot(s.subrange(i + 1, s.len() as int))
    }
}

pub proof fn lemma_split_dot_nonempty(s: Seq<char>)
    ensures
        split_dot(s).len() >= 1,
{
    lemma_first_dot_le(s);
}

/// The literal `*` label, which the generalizer strips before expanding.
pub open spec fn star_label() -> Seq<char> {
    seq!['*']
}

/// The labels with every literal `*` removed, order kept.
pub open spec fn drop_stars(ls: Seq<Seq<char>>) -> Seq<Seq<char>>
    decreases ls.len(),
{
    if ls.len() == 0 {
        Seq::empty()
    } else {
        let rest = drop_stars(ls.drop_last());
        if ls.last() == star_label() {
            rest
        } else {
            rest.push(ls.last())
        }
    }
}

/// Labels re-joined with single dots, exactly as `join(".")` renders them.
pub open spec fn join_dots(ls: Seq<Seq<char>>) -> Seq<char>
    decreases ls.len(),
{
    if ls.len() == 0 {
        Seq::empty()
    } else if ls.len() == 1 {
        ls[0]
    } else {
        ls[0] + seq!['.'] + join_dots(ls.drop_first())
    }
}

pub proof fn lemma_join_push(ls: Seq<Seq<char>>, x: Seq<char>)
    requires
        ls.len() >= 1,
    ensures
        join_dots(ls.push(x)) == join_dots(ls) + seq!['.'] + x,
    decreases ls.len(),
{
    if ls.len() == 1 {
        let p = ls.push(x);
        assert(p.len() == 2);
        assert(p[0] == ls[0]);
        assert(p.drop_first() =~~= seq![x]);
        assert(join_dots(p.drop_first()) == x);
        assert(join_dots(p) == p[0] + seq!['.'] + join_dots(p.drop_first()));
        assert(join_dots(ls.push(x)) =~= join_dots(ls) + seq!['.'] + x);
    } else {
        assert(ls.push(x).drop_first() =~~= ls.drop_first().push(x));
        lemma_join_push(ls.drop_first(), x);
        assert(join_dots(ls.push(x)) =~= join_dots(ls) + seq!['.'] + x);
    }
}

/// The ordered ancestor list: for every non-empty suffix of the label list,
/// the wildcard form then the bare form, most specific suffix first.
pub open spec fn ancestors(ls: Seq<Seq<char>>) -> Seq<Seq<char>>
    decreases ls.len(),
{
    if ls.len() == 0 {
        Seq::empty()
    } else {
        seq![seq!['*', '.'] + join_dots(ls), join_dots(ls)] + ancestors(ls.drop_first())
    }
}

/// Closed form of the ancestor list: entry 2i is the wildcard form and
/// entry 2i+1 the bare form of the suffix that starts at label i.
pub proof fn lemma_ancestors_form(ls: Seq<Seq<char>>)
    ensures
        ancestors(ls).len() == 2 * ls.len(),
        forall|j: int|
            0 <= j < 2 * ls.len() ==> #[trigger] ancestors(ls)[j] == (if j % 2 == 0 {
                seq!['*', '.'] + join_dots(ls.skip(j / 2))
            } else {
                join_dots(ls.skip(j / 2))
            }),
    decreases ls.len(),
{
    if ls.len() == 0 {
    } else {
        let lsd = ls.drop_first();
        lemma_ancestors_form(lsd);
        assert forall|j: int| 0 <= j < 2 * ls.len() implies #[trigger] ancestors(ls)[j] == (if j
            % 2 == 0 {
            seq!['*', '.'] + join_dots(ls.skip(j / 2))
        } else {
            join_dots(ls.skip(j / 2))
        }) by {
            if j == 0 {
                assert(ls.skip(0) =~~= ls);
            } else if j == 1 {
                assert(ls.skip(0) =~~= ls);
            } else {
                assert(ancestors(ls)[j] == ancestors(lsd)[j - 2]);
                assert(lsd.skip(j / 2 - 1) =~~= ls.skip(j / 2));
                assert((j - 2) / 2 == j / 2 - 1);
                assert((j - 2) % 2 == j % 2);
            }
        }
    }
}

/// What the generalizer yields for an input: nothing for the empty string,
/// else the ancestor list of the dot-separated labels with `*` labels
/// stripped first.
pub open spec fn generalize_spec(s: Seq<char>) -> Seq<Seq<char>> {
    if s.len() == 0 {
        Seq::empty()
    } else {
        ancestors(drop_stars(split_dot(s)))
    }
}

/// Splits on dots, keeping empty labels, as the generalizer's first step.
fn split_labels(s: &str) -> (labels: Vec<String>)
    ensures
        labels.deep_view() == split_dot(s@),
    decreases s@.len(),
{
    let n = s.unicode_len();
    let mut i: usize = 0;
    loop
        invariant
            0 <= i <= n,
            n == s@.len(),
            forall|j: int| 0 <= j < i ==> s@[j] != '.',
        ensures
            0 <= i <= n,
            forall|j: int| 0 <= j < i ==> s@[j] != '.',
            i < n ==> s@[i as int] == '.',
        decreases n - i,
    {
        if i == n {
            break;
        }
        if s.get_char(i) == '.' {
            break;
        }
        i = i + 1;
    }
    proof {
        lemma_first_dot_char(s@, i as int);
    }
    if i == n {
        let mut v: Vec<String> = Vec::new();
        v.push(String::from_str(s));
        proof {
            assert(v.deep_view() =~~= split_dot(s@));
        }
        v
    } else {
        let head = s.substring_char(0, i);
        let rest = s.substring_char(i + 1, n);
        let mut v: Vec<String> = Vec::new();
        v.push(String::from_str(head));
        let mut tail = split_labels(rest);
        v.append(&mut tail);
        proof {
            assert(v.deep_view() =~~= split_dot(s@));
        }
        v
    }
}

/// Drops every label that is exactly `*`, keeping the rest in order.
fn retain_labels(v: &Vec<String>) -> (r: Vec<String>)
    ensures
        r.deep_view() == drop_stars(v.deep_view()),
{
    let star = String::from_str("*");
    proof {
        reveal_strlit("*");
        assert(star@ =~= star_label());
    }
    let mut r: Vec<String> = Vec::new();
    let mut i: usize = 0;
    while i < v.len()
        invariant
            0 <= i <= v.len(),
            star@ == star_label(),
            r.deep_view() == drop_stars(v.deep_view().subrange(0, i as int)),
        decreases v.len() - i,
    {
        let ghost pre = v.deep_view().subrange(0, i as int);
        let keep = !(v[i] == star);
        if keep {
            r.push(v[i].clone());
        }
        proof {
            let cur = v.deep_view().subrange(0, i + 1);
            assert(cur.drop_last() =~~= pre);
            assert(cur.last() == v.deep_view()[i as int]);
            if keep {
                assert(r.deep_view() =~~= drop_stars(cur));
            } else {
                assert(v.deep_view()[i as int] == star_label());
                assert(r.deep_view() =~~= drop_stars(cur));
            }
        }
        i = i + 1;
    }
    proof {
        assert(v.deep_view().subrange(0, v.deep_view().len() as int) =~~= v.deep_view());
    }
    r
}

/// Joins the labels from position `from` onward with dots.
fn join_from(labels: &Vec<String>, from: usize) -> (r: String)
    requires
        from < labels@.len(),
    ensures
        r@ == join_dots(labels.deep_view().skip(from as int)),
{
    let ghost dv = labels.deep_view();
    let n = labels.len();
    let mut r = labels[from].clone();
    proof {
        assert(dv.subrange(from as int, from + 1) =~~= seq![dv[from as int]]);
        assert(r@ == join_dots(dv.subrange(from as int, from + 1)));
    }
    let mut j = from + 1;
    while j < n
        invariant
            from < j <= n,
            n == labels@.len(),
            dv == labels.deep_view(),
            r@ == join_dots(dv.subrange(from as int, j as int)),
        decreases n - j,
    {
        r.append(".");
        r.append(labels[j].as_str());
        proof {
            reveal_strlit(".");
            assert("."@ =~= seq!['.']);
            lemma_join_push(dv.subrange(from as int, j as int), dv[j as int]);
            assert(dv.subrange(from as int, j + 1) =~~= dv.subrange(from as int, j as int).push(
                dv[j as int],
            ));
        }
        j = j + 1;
    }
    proof {
        assert(dv.subrange(from as int, dv.len() as int) =~~= dv.skip(from as int));
    }
    r
}

/// The generalizer: splits the input on dots, strips literal `*` labels,
/// and emits, for each suffix level, the `*.`-prefixed wildcard form then
/// the bare form, most specific suffix first. The empty input yields an
/// empty list.
pub fn domain_to_search_list(input: &str) -> (out: Vec<String>)
    ensures
        out.deep_view() == generalize_spec(input@),
{
    let mut out: Vec<String> = Vec::new();
    if input.is_empty() {
        return out;
    }
    let labels = split_labels(input);
    let kept = retain_labels(&labels);
    let ghost ls = kept.deep_view();
    proof {
        lemma_ancestors_form(ls);
    }
    let mut idx: usize = 0;
    while idx < kept.len()
        invariant
            0 <= idx <= kept@.len(),
            ls == kept.deep_view(),
            ancestors(ls).len() == 2 * ls.len(),
            forall|j: int|
                0 <= j < 2 * ls.len() ==> #[trigger] ancestors(ls)[j] == (if j % 2 == 0 {
                    seq!['*', '.'] + join_dots(ls.skip(j / 2))
                } else {
                    join_dots(ls.skip(j / 2))
                }),
            out.deep_view() == ancestors(ls).subrange(0, 2 * idx as int),
        decreases kept@.len() - idx,
    {
        let ghost pre = out.deep_view();
        let joined = join_from(&kept, idx);
        let mut star = String::from_str("*.");
        star.append(joined.as_str());
        out.push(star);
        out.push(joined);
        proof {
            reveal_strlit("*.");
            assert("*."@ =~= seq!['*', '.']);
            assert(ancestors(ls)[2 * idx as int] == seq!['*', '.'] + join_dots(
                ls.skip(idx as int),
            ));
            assert(ancestors(ls)[2 * idx as int + 1] == join_dots(ls.skip(idx as int)));
            assert(star@ =~= seq!['*', '.'] + join_dots(ls.skip(idx as int)));
            assert(out.deep_view() =~~= pre.push(star@).push(joined@));
            assert(out.deep_view() =~~= ancestors(ls).subrange(0, 2 * (idx + 1)));
        }
        idx = idx + 1;
    }
    proof {
        assert(ancestors(ls).subrange(0, ancestors(ls).len() as int) =~~= ancestors(ls));
    }
    out
}

/// For a domain of k dot-separated labels, none empty and none a literal
/// `*`, the generalizer yields exactly 2k entries — the wildcard form then
/// the bare form per suffix level — strictly decreasing in specificity,
/// and the final pair is `("*.<last label>", "<last label>")`.
pub proof fn lemma_generalizer_shape(s: Seq<char>)
    requires
        s.len() > 0,
        forall|i: int| 0 <= i < split_dot(s).len() ==> #[trigger] split_dot(s)[i].len() > 0,
        forall|i: int| 0 <= i < split_dot(s).len() ==> #[trigger] split_dot(s)[i] != star_label(),
    ensures
        ({
            let ls = split_dot(s);
            let k = ls.len() as int;
            let g = generalize_spec(s);
            &&& g.len() == 2 * k
            &&& forall|j: int|
                0 <= j < 2 * k ==> #[trigger] g[j] == (if j % 2 == 0 {
                    seq!['*', '.'] + join_dots(ls.skip(j / 2))
                } else {
                    join_dots(ls.skip(j / 2))
                })
            &&& g[2 * k - 2] == seq!['*', '.'] + ls[k - 1]
            &&& g[2 * k - 1] == ls[k - 1]
            &&& forall|i: int|
                0 <= i < k - 1 ==> #[trigger] join_dots(ls.skip(i + 1)).len() < join_dots(
                    ls.skip(i),
                ).len()
        }),
{
    let ls = split_dot(s);
    let k = ls.len() as int;
    lemma_split_dot_nonempty(s);
    lemma_drop_stars_id(ls);
    lemma_ancestors_form(ls);
    assert(ls.skip(k - 1) =~~= seq![ls[k - 1]]);
    assert(join_dots(ls.skip(k - 1)) == ls[k - 1]);
    assert((2 * k - 2) % 2 == 0 && (2 * k - 2) / 2 == k - 1);
    assert((2 * k - 1) % 2 == 1 && (2 * k - 1) / 2 == k - 1);
    assert forall|i: int| 0 <= i < k - 1 implies #[trigger] join_dots(ls.skip(i + 1)).len()
        < join_dots(ls.skip(i)).len() by {
        let suf = ls.skip(i);
        assert(suf.len() >= 2);
        assert(suf.drop_first() =~~= ls.skip(i + 1));
        assert(join_dots(suf) == suf[0] + seq!['.'] + join_dots(ls.skip(i + 1)));
    }
}

/// Stripping `*` labels from a list that has none leaves it unchanged.
pub proof fn lemma_drop_stars_id(ls: Seq<Seq<char>>)
    requires
        forall|i: int| 0 <= i < ls.len() ==> #[trigger] ls[i] != star_label(),
    ensures
        drop_stars(ls) == ls,
    decreases ls.len(),
{
    if ls.len() == 0 {
        assert(drop_stars(ls) =~~= ls);
    } else {
        lemma_drop_stars_id(ls.drop_last());
        assert(drop_stars(ls) =~~= ls);
    }
}

} // verus!
