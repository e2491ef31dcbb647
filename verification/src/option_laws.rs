//! The order of options does not matter.
use vstd::prelude::*;
use crate::build_plan;
use crate::build_plan::CommonOptions;
use crate::config::IndexType;
use crate::diskann::DiskAnnBuildParams;
use crate::options;
use crate::options::OptionView;
use crate::text;

verus! {

/// The option that an entry states.
pub open spec fn stated(entry: OptionView) -> OptionView {
    OptionView { key: text::trimmed(entry.key), ..entry }
}

/// Whether keys can be collected: none is empty, and no two are the same.
pub open spec fn collectable(entries: Seq<OptionView>) -> bool {
    &&& forall|i: int| 0 <= i < entries.len() ==> stated(#[trigger] entries[i]).key.len() > 0
    &&& forall|i: int, j: int|
        0 <= i < j < entries.len() ==> stated(#[trigger] entries[i]).key != stated(
            #[trigger] entries[j],
        ).key
}

proof fn lemma_collected(entries: Seq<OptionView>)
    ensures
        options::collected(entries) is Ok <==> collectable(entries),
        options::collected(entries) matches Ok(options) ==> options == entries.map_values(
            |entry: OptionView| stated(entry),
        ),
    decreases entries.len(),
{
    let mapped = entries.map_values(|entry: OptionView| stated(entry));
    if entries.len() == 0 {
        assert(mapped =~= Seq::empty());
    } else {
        let init = entries.drop_last();
        lemma_collected(init);
        let key = stated(entries.last()).key;
        if let Ok(before) = options::collected(init) {
            lemma_find(before, key);
            assert(mapped =~= before.push(stated(entries.last())));
            if options::find(before, key) is Some {
                let found = options::find(before, key)->0;
                let i = choose|i: int| 0 <= i < before.len() && before[i] == found;
                assert(stated(entries[i]).key == key);
                assert(entries[entries.len() - 1] == entries.last());
            } else {
                assert forall|i: int| 0 <= i < init.len() implies stated(
                    #[trigger] entries[i],
                ).key != key by {
                    assert(before[i] == stated(init[i]));
                }
            }
            if collectable(entries) {
                assert(stated(entries[entries.len() - 1]).key.len() > 0);
            }
            assert forall|i: int| 0 <= i < init.len() implies init[i] == #[trigger] entries[i] by {}
        } else {
            if collectable(entries) {
                assert(collectable(init)) by {
                    assert forall|i: int| 0 <= i < init.len() implies stated(
                        #[trigger] init[i],
                    ).key.len() > 0 by {
                        assert(init[i] == entries[i]);
                    }
                    assert forall|i: int, j: int| 0 <= i < j < init.len() implies stated(
                        #[trigger] init[i],
                    ).key != stated(#[trigger] init[j]).key by {
                        assert(init[i] == entries[i] && init[j] == entries[j]);
                    }
                }
            }
        }
    }
}

proof fn lemma_find(options: Seq<OptionView>, key: Seq<char>)
    ensures
        match options::find(options, key) {
            Some(option) => option.key == key && options.contains(option),
            None => forall|i: int| 0 <= i < options.len() ==> (#[trigger] options[i]).key != key,
        },
    decreases options.len(),
{
    if options.len() > 0 {
        let init = options.drop_last();
        lemma_find(init, key);
        assert(options[options.len() - 1] == options.last());
        if let Some(option) = options::find(init, key) {
            let i = choose|i: int| 0 <= i < init.len() && init[i] == option;
            assert(options[i] == option);
        } else {
            assert forall|i: int| 0 <= i < options.len() - 1 implies init[i]
                == #[trigger] options[i] by {}
        }
    }
}

/// Whether no key occurs twice.
pub open spec fn distinct(options: Seq<OptionView>) -> bool {
    forall|i: int, j: int|
        0 <= i < j < options.len() ==> (#[trigger] options[i]).key != (#[trigger] options[j]).key
}

proof fn lemma_same_find(a: Seq<OptionView>, b: Seq<OptionView>, key: Seq<char>)
    requires
        distinct(a),
        forall|option: OptionView| #[trigger] a.contains(option) <==> b.contains(option),
        distinct(b),
    ensures
        options::find(a, key) == options::find(b, key),
{
    lemma_find(a, key);
    lemma_find(b, key);
    match (options::find(a, key), options::find(b, key)) {
        (Some(x), Some(y)) => {
            assert(a.contains(y) && a.contains(x));
            let i = choose|i: int| 0 <= i < a.len() && a[i] == x;
            let j = choose|j: int| 0 <= j < a.len() && a[j] == y;
            assert(i == j);
        },
        (Some(x), None) => {
            assert(a.contains(x));
            let i = choose|i: int| 0 <= i < b.len() && b[i] == x;
            assert(b[i].key == key);
        },
        (None, Some(y)) => {
            assert(a.contains(y));
            let i = choose|i: int| 0 <= i < a.len() && a[i] == y;
            assert(a[i].key == key);
        },
        (None, None) => {},
    }
}

/// An error names each key that is not known, and names it once.
pub proof fn law_unknown_keys_are_named_once(options: Seq<OptionView>, known: Set<Seq<char>>, key: Seq<char>)
    requires
        distinct(options),
    ensures
        options::unknown_keys(options, known).to_multiset().count(key) == (if (exists|i: int|
            0 <= i < options.len() && (#[trigger] options[i]).key == key) && !known.contains(key) {
            1nat
        } else {
            0
        }),
    decreases options.len(),
{
    broadcast use vstd::seq_lib::group_to_multiset_ensures;

    if options.len() > 0 {
        let init = options.drop_last();
        let last = options.last();
        assert(options[options.len() - 1] == last);
        assert forall|i: int| 0 <= i < init.len() implies init[i] == #[trigger] options[i] by {}
        law_unknown_keys_are_named_once(init, known, key);
        let before = options::unknown_keys(init, known);
        if exists|i: int| 0 <= i < init.len() && (#[trigger] init[i]).key == key {
            let i = choose|i: int| 0 <= i < init.len() && (#[trigger] init[i]).key == key;
            assert(options[i].key == key);
        }
        if !known.contains(last.key) {
            options::lemma_text_place(before, last.key);
            let place = options::text_place(before, last.key);
            vstd::seq_lib::to_multiset_insert(before, place, last.key);
        }
    } else {
        assert(options::unknown_keys(options, known).len() == 0);
        assert(options::unknown_keys(options, known) =~= Seq::<Seq<char>>::empty());
    }
}

proof fn lemma_text_order_is_total()
    ensures
        vstd::relations::total_ordering(|a: Seq<char>, b: Seq<char>| !text::text_before(b, a)),
{
    let leq = |a: Seq<char>, b: Seq<char>| !text::text_before(b, a);
    assert(vstd::relations::reflexive(leq)) by {
        assert forall|a: Seq<char>| #[trigger] leq(a, a) by {
            text::law_text_order(a, a, a);
        }
    }
    assert(vstd::relations::antisymmetric(leq)) by {
        assert forall|a: Seq<char>, b: Seq<char>| #[trigger] leq(a, b) && #[trigger] leq(
            b,
            a,
        ) implies a == b by {
            text::law_text_order(a, b, a);
        }
    }
    assert(vstd::relations::transitive(leq)) by {
        assert forall|a: Seq<char>, b: Seq<char>, c: Seq<char>| #[trigger] leq(a, b)
            && #[trigger] leq(b, c) implies leq(a, c) by {
            text::law_text_order(a, b, c);
        }
    }
    assert(vstd::relations::strongly_connected(leq)) by {
        assert forall|a: Seq<char>, b: Seq<char>| #[trigger] leq(a, b) || #[trigger] leq(b, a) by {
            text::law_text_order(a, b, a);
        }
    }
}

proof fn lemma_same_unknown(a: Seq<OptionView>, b: Seq<OptionView>, known: Set<Seq<char>>)
    requires
        distinct(a),
        distinct(b),
        forall|option: OptionView| #[trigger] a.contains(option) <==> b.contains(option),
    ensures
        options::unknown_keys(a, known) == options::unknown_keys(b, known),
{
    let leq = |a: Seq<char>, b: Seq<char>| !text::text_before(b, a);
    let x = options::unknown_keys(a, known);
    let y = options::unknown_keys(b, known);
    lemma_text_order_is_total();
    options::law_unknown_keys_are_sorted(a, known);
    options::law_unknown_keys_are_sorted(b, known);
    assert forall|key: Seq<char>| #[trigger] x.to_multiset().count(key) == y.to_multiset().count(
        key,
    ) by {
        law_unknown_keys_are_named_once(a, known, key);
        law_unknown_keys_are_named_once(b, known, key);
        if exists|i: int| 0 <= i < a.len() && (#[trigger] a[i]).key == key {
            let i = choose|i: int| 0 <= i < a.len() && (#[trigger] a[i]).key == key;
            assert(a.contains(a[i]));
            let j = choose|j: int| 0 <= j < b.len() && b[j] == a[i];
            assert(b[j].key == key);
        }
        if exists|i: int| 0 <= i < b.len() && (#[trigger] b[i]).key == key {
            let i = choose|i: int| 0 <= i < b.len() && (#[trigger] b[i]).key == key;
            assert(b.contains(b[i]));
            assert(a.contains(b[i]));
            let j = choose|j: int| 0 <= j < a.len() && a[j] == b[i];
            assert(a[j].key == key);
        }
    }
    assert(x.to_multiset() =~= y.to_multiset());
    assert(vstd::relations::sorted_by(x, leq)) by {
        assert forall|i: int, j: int| 0 <= i < j < x.len() implies #[trigger] leq(x[i], x[j]) by {}
    }
    assert(vstd::relations::sorted_by(y, leq)) by {
        assert forall|i: int, j: int| 0 <= i < j < y.len() implies #[trigger] leq(y[i], y[j]) by {}
    }
    vstd::seq_lib::lemma_sorted_unique(x, y, leq);
}

/// The order of options does not matter: entries that can be collected give the same plan
/// and the same configuration, or the same error, in every order.
pub proof fn law_order_of_options_does_not_matter(a: Seq<OptionView>, b: Seq<OptionView>)
    requires
        options::collected(a) is Ok,
        a.to_multiset() == b.to_multiset(),
    ensures
        options::collected(b) is Ok,
        build_plan::planned(a) == build_plan::planned(b),
        build_plan::configured(a) == build_plan::configured(b),
{
    broadcast use vstd::seq_lib::group_to_multiset_ensures;

    lemma_collected(a);
    lemma_collected(b);
    lemma_collectable(a, b);
    let x = options::collected(a)->Ok_0;
    let y = options::collected(b)->Ok_0;
    assert(distinct(x)) by {
        assert forall|i: int, j: int| 0 <= i < j < x.len() implies (#[trigger] x[i]).key != (
        #[trigger] x[j]).key by {
            assert(stated(a[i]).key != stated(a[j]).key);
        }
    }
    assert(distinct(y)) by {
        assert forall|i: int, j: int| 0 <= i < j < y.len() implies (#[trigger] y[i]).key != (
        #[trigger] y[j]).key by {
            assert(stated(b[i]).key != stated(b[j]).key);
        }
    }
    assert forall|option: OptionView| #[trigger] x.contains(option) <==> y.contains(option) by {
        if x.contains(option) {
            let i = choose|i: int| 0 <= i < x.len() && x[i] == option;
            assert(a.contains(a[i]));
            assert(b.to_multiset().count(a[i]) > 0);
            let j = choose|j: int| 0 <= j < b.len() && b[j] == a[i];
            assert(y[j] == option);
        }
        if y.contains(option) {
            let i = choose|i: int| 0 <= i < y.len() && y[i] == option;
            assert(b.contains(b[i]));
            assert(a.to_multiset().count(b[i]) > 0);
            let j = choose|j: int| 0 <= j < a.len() && a[j] == b[i];
            assert(x[j] == option);
        }
    }
    assert forall|key: Seq<char>| #[trigger] options::find(x, key) == options::find(y, key) by {
        lemma_same_find(x, y, key);
    }
    assert(build_plan::common(x) == build_plan::common(y));
    if let Ok(common) = build_plan::common(x) {
        lemma_same_unknown(x, y, options::known_keys(common.index_type));
        lemma_same_config(x, y, common);
    }
}

/// Whether two lists of options hold the same options.
spec fn alike(x: Seq<OptionView>, y: Seq<OptionView>) -> bool {
    forall|key: Seq<char>| #[trigger] options::find(x, key) == options::find(y, key)
}

proof fn lemma_same_numbers(x: Seq<OptionView>, y: Seq<OptionView>, name: Seq<char>, default: usize)
    requires
        alike(x, y),
    ensures
        build_plan::number_or(x, name, default) == build_plan::number_or(y, name, default),
        build_plan::optional_number(x, name) == build_plan::optional_number(y, name),
{
    assert(options::find(x, name) == options::find(y, name));
}

proof fn lemma_same_lists(x: Seq<OptionView>, y: Seq<OptionView>, count: Option<usize>)
    requires
        alike(x, y),
    ensures
        build_plan::list_number(x, count) == build_plan::list_number(y, count),
        build_plan::coarse_assignment(x) == build_plan::coarse_assignment(y),
{
    assert(options::find(x, "nlist"@) == options::find(y, "nlist"@));
    assert(options::find(x, "ivf.coarse-assignment"@) == options::find(
        y,
        "ivf.coarse-assignment"@,
    ));
}

proof fn lemma_same_codes(
    x: Seq<OptionView>,
    y: Seq<OptionView>,
    dimension: usize,
    bits: usize,
    uniform: bool,
    budget: Option<usize>,
)
    requires
        alike(x, y),
    ensures
        build_plan::subquantizers(x, dimension, bits, uniform, budget) == build_plan::subquantizers(
            y,
            dimension,
            bits,
            uniform,
            budget,
        ),
{
    assert(options::find(x, "pq.m"@) == options::find(y, "pq.m"@));
    assert(options::find(x, "pq.code-ratio"@) == options::find(y, "pq.code-ratio"@));
}

proof fn lemma_same_overrides(
    x: Seq<OptionView>,
    y: Seq<OptionView>,
    base: DiskAnnBuildParams,
    max_degree: usize,
    is_tight: bool,
)
    requires
        alike(x, y),
    ensures
        build_plan::diskann_overrides(x, base, max_degree, is_tight)
            == build_plan::diskann_overrides(y, base, max_degree, is_tight),
{
    let default = if base.build_search_list_size < max_degree {
        max_degree
    } else {
        base.build_search_list_size
    };
    lemma_same_numbers(x, y, "diskann.build-search-list-size"@, default);
    assert(options::find(x, "diskann.alpha"@) == options::find(y, "diskann.alpha"@));
    assert(build_plan::alpha(x, base.alpha) == build_plan::alpha(y, base.alpha));
    assert(options::find(x, "diskann.storage-layout"@) == options::find(
        y,
        "diskann.storage-layout"@,
    ));
    assert(build_plan::storage_layout(x, base.storage_layout) == build_plan::storage_layout(
        y,
        base.storage_layout,
    ));
    assert(options::find(x, "diskann.raw-vector-encoding"@) == options::find(
        y,
        "diskann.raw-vector-encoding"@,
    ));
    assert(build_plan::raw_encoding(x, base.raw_vector_encoding, is_tight)
        == build_plan::raw_encoding(y, base.raw_vector_encoding, is_tight));
    assert(options::find(x, "diskann.build-distance"@) == options::find(
        y,
        "diskann.build-distance"@,
    ));
    assert(build_plan::build_distance(x, base.build_distance) == build_plan::build_distance(
        y,
        base.build_distance,
    ));
}

proof fn lemma_same_build(x: Seq<OptionView>, y: Seq<OptionView>, common: CommonOptions)
    requires
        alike(x, y),
    ensures
        ({
            let profile = common.objective.deployment_profile;
            let recall = common.objective.target_recall;
            let max_bytes = common.objective.max_bytes_per_vector;
            build_plan::diskann_build(x, common.dimension, profile, recall, max_bytes)
                == build_plan::diskann_build(y, common.dimension, profile, recall, max_bytes)
        }),
{
    let profile = common.objective.deployment_profile;
    let recall = common.objective.target_recall;
    let max_bytes = common.objective.max_bytes_per_vector;
    assert(options::find(x, "diskann.build-preset"@) == options::find(y, "diskann.build-preset"@));
    assert(options::find(x, "diskann.seed"@) == options::find(y, "diskann.seed"@));
    assert(options::find(x, "diskann.memory-budget-bytes"@) == options::find(
        y,
        "diskann.memory-budget-bytes"@,
    ));
    assert(build_plan::build_base(x, common.dimension, profile, recall) == build_plan::build_base(
        y,
        common.dimension,
        profile,
        recall,
    ));
    if let Ok(base) = build_plan::build_base(x, common.dimension, profile, recall) {
        lemma_same_numbers(x, y, "diskann.max-degree"@, base.max_degree);
        if let Ok(max_degree) = build_plan::number_or(
            x,
            "diskann.max-degree"@,
            base.max_degree,
        ) {
            lemma_same_overrides(
                x,
                y,
                base,
                max_degree,
                build_plan::tight(max_bytes, common.dimension, max_degree as nat),
            );
        }
    }
}

proof fn lemma_same_config(x: Seq<OptionView>, y: Seq<OptionView>, common: CommonOptions)
    requires
        alike(x, y),
    ensures
        build_plan::unchecked_config(x, common) == build_plan::unchecked_config(y, common),
{
    let max_bytes = common.objective.max_bytes_per_vector;
    lemma_same_lists(x, y, common.expected_vector_count);
    match common.index_type {
        IndexType::IvfPq => {
            let budget = build_plan::optional_code_budget(max_bytes, "IVF-PQ"@);
            lemma_same_codes(x, y, common.dimension, 8, true, budget->Ok_0);
            assert(options::find(x, "use-opq"@) == options::find(y, "use-opq"@));
            assert(build_plan::rotation(x, common.objective.target_recall)
                == build_plan::rotation(y, common.objective.target_recall));
        },
        IndexType::IvfRq => {
            lemma_same_numbers(x, y, "rq.bits"@, 0);
            assert(build_plan::rotated_bits(x, common) == build_plan::rotated_bits(y, common));
        },
        IndexType::DiskAnn => {
            let default: usize = if build_plan::tight(max_bytes, common.dimension, 64) {
                4
            } else {
                8
            };
            lemma_same_numbers(x, y, "pq.bits"@, default);
            lemma_same_build(x, y, common);
            let bits = build_plan::graph_bits(x, common)->Ok_0;
            let build = build_plan::diskann_build(
                x,
                common.dimension,
                common.objective.deployment_profile,
                common.objective.target_recall,
                max_bytes,
            )->Ok_0;
            let budget = build_plan::graph_code_budget(max_bytes, common.dimension, bits, build);
            lemma_same_codes(x, y, common.dimension, bits, false, budget->Ok_0);
        },
        _ => {},
    }
}

proof fn lemma_collectable(a: Seq<OptionView>, b: Seq<OptionView>)
    requires
        collectable(a),
        a.to_multiset() == b.to_multiset(),
    ensures
        collectable(b),
{
    broadcast use vstd::seq_lib::group_to_multiset_ensures;

    assert forall|i: int| 0 <= i < b.len() implies stated(#[trigger] b[i]).key.len() > 0 by {
        assert(b.contains(b[i]));
        assert(a.to_multiset().count(b[i]) > 0);
        let j = choose|j: int| 0 <= j < a.len() && a[j] == b[i];
        assert(stated(a[j]).key.len() > 0);
    }
    assert forall|i: int, j: int| 0 <= i < j < b.len() implies stated(#[trigger] b[i]).key
        != stated(#[trigger] b[j]).key by {
        assert(b.contains(b[i]) && b.contains(b[j]));
        assert(a.to_multiset().count(b[i]) > 0 && a.to_multiset().count(b[j]) > 0);
        let p = choose|p: int| 0 <= p < a.len() && a[p] == b[i];
        let q = choose|q: int| 0 <= q < a.len() && a[q] == b[j];
        if p < q {
            assert(stated(a[p]).key != stated(a[q]).key);
        } else if q < p {
            assert(stated(a[q]).key != stated(a[p]).key);
        } else {
            lemma_repeated(b, i, j);
            lemma_unrepeated(a, p);
        }
    }
}

/// What stands at two places occurs at least twice.
proof fn lemma_repeated(s: Seq<OptionView>, i: int, j: int)
    requires
        0 <= i < j < s.len(),
        s[i] == s[j],
    ensures
        s.to_multiset().count(s[i]) >= 2,
{
    broadcast use vstd::seq_lib::group_to_multiset_ensures;

    let rest = s.remove(i);
    vstd::seq_lib::to_multiset_remove(s, i);
    assert(rest[j - 1] == s[j]);
    assert(rest.contains(s[j]));
    assert(rest.to_multiset().count(s[j]) > 0);
}

/// What differs from all others occurs once.
proof fn lemma_unrepeated(s: Seq<OptionView>, p: int)
    requires
        collectable(s),
        0 <= p < s.len(),
    ensures
        s.to_multiset().count(s[p]) == 1,
{
    broadcast use vstd::seq_lib::group_to_multiset_ensures;

    let rest = s.remove(p);
    vstd::seq_lib::to_multiset_remove(s, p);
    if rest.contains(s[p]) {
        let i = choose|i: int| 0 <= i < rest.len() && rest[i] == s[p];
        if i < p {
            assert(stated(s[i]).key != stated(s[p]).key);
        } else {
            assert(s[i + 1] == s[p]);
            assert(stated(s[p]).key != stated(s[i + 1]).key);
        }
    }
    assert(rest.to_multiset().count(s[p]) == 0);
}

} // verus!
