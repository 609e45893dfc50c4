//! The library's stated laws: generation is deterministic and independent
//! of the collaborators' iteration order, empty overrides never reach the
//! output, and the desktop entry is always present.

use vstd::prelude::*;
use crate::config::CargoConfig;
use crate::config::CargoTarget;
use crate::config::desktop_target;
use crate::config::desktop_triple;
use crate::config::generated_from;
use crate::config::has_key;
use crate::config::key_index;
use crate::config::lemma_sorted_unique;
use crate::config::lemma_value_at;
use crate::config::merged_has;
use crate::config::merged_value;
use crate::config::sorted_keys;
use crate::config::value_of;
use crate::order::lemma_lex_asym;
use crate::order::lex_lt;
use crate::render::render_config;

verus! {

/// In a sorted sequence, dropping the last entry removes exactly that
/// entry's triple from the lookup.
proof fn lemma_drop_last_lookup(e: Seq<(String, CargoTarget)>)
    requires
        sorted_keys(e),
        e.len() > 0,
    ensures
        sorted_keys(e.drop_last()),
        forall|k: Seq<char>| #[trigger] has_key(e.drop_last(), k) <==> has_key(e, k) && k
            != e.last().0@,
        forall|k: Seq<char>|
            has_key(e.drop_last(), k) ==> #[trigger] value_of(e.drop_last(), k) == value_of(e, k),
{
    lemma_sorted_unique(e);
    let d = e.drop_last();
    assert(sorted_keys(d)) by {
        assert forall|i: int, j: int| 0 <= i < j < d.len() implies lex_lt(
            (#[trigger] d[i]).0@,
            (#[trigger] d[j]).0@,
        ) by {
            assert(d[i] == e[i]);
            assert(d[j] == e[j]);
        }
    }
    lemma_sorted_unique(d);
    assert forall|k: Seq<char>| #[trigger] has_key(d, k) implies has_key(e, k) && k
        != e.last().0@ by {
        let j = key_index(d, k);
        assert(0 <= j < d.len() && d[j].0@ == k);
        assert(e[j].0@ == k);
        assert(e[j].0@ != e[e.len() - 1].0@);
    }
    assert forall|k: Seq<char>| has_key(e, k) && k != e.last().0@ implies #[trigger] has_key(
        d,
        k,
    ) by {
        let j = key_index(e, k);
        assert(0 <= j < e.len() && e[j].0@ == k);
        assert(j != e.len() - 1);
        assert(d[j].0@ == k);
    }
    assert forall|k: Seq<char>| has_key(d, k) implies #[trigger] value_of(d, k) == value_of(
        e,
        k,
    ) by {
        let j = key_index(d, k);
        assert(0 <= j < d.len() && d[j].0@ == k);
        lemma_value_at(d, j);
        assert(d[j] == e[j]);
        lemma_value_at(e, j);
    }
}

/// Two sorted entry sequences with the same lookup structure agree
/// pointwise on triples and override values: the sorted form of a mapping
/// is unique.
proof fn lemma_sorted_lookup_pointwise(e1: Seq<(String, CargoTarget)>, e2: Seq<(String, CargoTarget)>)
    requires
        sorted_keys(e1),
        sorted_keys(e2),
        forall|k: Seq<char>|
            #![trigger has_key(e1, k)]
            #![trigger has_key(e2, k)]
            has_key(e1, k) <==> has_key(e2, k),
        forall|k: Seq<char>|
            has_key(e1, k) ==> #[trigger] value_of(e1, k) == #[trigger] value_of(e2, k),
    ensures
        e1.len() == e2.len(),
        forall|x: int|
            0 <= x < e1.len() ==> (#[trigger] e1[x]).0@ == e2[x].0@ && e1[x].1@ == e2[x].1@,
    decreases e1.len(),
{
    lemma_sorted_unique(e1);
    lemma_sorted_unique(e2);
    if e1.len() == 0 {
        if e2.len() > 0 {
            lemma_value_at(e2, 0);
            assert(has_key(e1, e2[0].0@));
            assert(false);
        }
    } else {
        if e2.len() == 0 {
            lemma_value_at(e1, 0);
            assert(has_key(e2, e1[0].0@));
            assert(false);
        }
        let k1 = e1.last().0@;
        let k2 = e2.last().0@;
        lemma_value_at(e1, e1.len() - 1);
        lemma_value_at(e2, e2.len() - 1);
        assert(has_key(e2, k1));
        assert(has_key(e1, k2));
        if k1 != k2 {
            let j2 = key_index(e2, k1);
            assert(0 <= j2 < e2.len() && e2[j2].0@ == k1);
            assert(j2 != e2.len() - 1);
            assert(lex_lt(e2[j2].0@, e2[e2.len() - 1].0@));
            let j1 = key_index(e1, k2);
            assert(0 <= j1 < e1.len() && e1[j1].0@ == k2);
            assert(j1 != e1.len() - 1);
            assert(lex_lt(e1[j1].0@, e1[e1.len() - 1].0@));
            lemma_lex_asym(k1, k2);
            assert(false);
        }
        assert(e1.last().1@ == e2.last().1@) by {
            assert(value_of(e1, k1) == e1.last().1@);
            assert(value_of(e2, k1) == e2.last().1@);
        }
        lemma_drop_last_lookup(e1);
        lemma_drop_last_lookup(e2);
        lemma_sorted_lookup_pointwise(e1.drop_last(), e2.drop_last());
        assert forall|x: int| 0 <= x < e1.len() implies (#[trigger] e1[x]).0@ == e2[x].0@
            && e1[x].1@ == e2[x].1@ by {
            if x < e1.len() - 1 {
                assert(e1.drop_last()[x] == e1[x]);
                assert(e2.drop_last()[x] == e2[x]);
            }
        }
    }
}

/// Rendering depends only on the entries' triples and override values.
proof fn lemma_render_pointwise(e1: Seq<(String, CargoTarget)>, e2: Seq<(String, CargoTarget)>)
    requires
        e1.len() == e2.len(),
        forall|x: int|
            0 <= x < e1.len() ==> (#[trigger] e1[x]).0@ == e2[x].0@ && e1[x].1@ == e2[x].1@,
    ensures
        render_config(e1) == render_config(e2),
    decreases e1.len(),
{
    if e1.len() > 0 {
        assert forall|x: int| 0 <= x < e1.drop_last().len() implies (#[trigger] e1.drop_last()[x]).0@
            == e2.drop_last()[x].0@ && e1.drop_last()[x].1@ == e2.drop_last()[x].1@ by {
            assert(e1.drop_last()[x] == e1[x]);
            assert(e2.drop_last()[x] == e2[x]);
        }
        lemma_render_pointwise(e1.drop_last(), e2.drop_last());
        assert(e1.last().0@ == e2.last().0@ && e1.last().1@ == e2.last().1@);
    }
}

/// Determinism and idempotence of generation: a fixed pair of collaborator
/// outputs admits only one configuration, so two successive runs with no
/// environment change produce entry lists of the same length, with the same
/// triples and override values throughout, and hence byte-identical
/// serialized text.
pub proof fn lemma_generation_deterministic(
    android: Seq<(String, CargoTarget)>,
    ios: Seq<(String, CargoTarget)>,
    c1: CargoConfig,
    c2: CargoConfig,
)
    requires
        generated_from(c1, android, ios),
        generated_from(c2, android, ios),
    ensures
        c1.entries().len() == c2.entries().len(),
        forall|x: int|
            0 <= x < c1.entries().len() ==> (#[trigger] c1.entries()[x]).0@ == c2.entries()[x].0@
                && c1.entries()[x].1@ == c2.entries()[x].1@,
        render_config(c1.entries()) == render_config(c2.entries()),
{
    assert forall|k: Seq<char>|
        #![trigger has_key(c1.entries(), k)]
        #![trigger has_key(c2.entries(), k)]
        has_key(c1.entries(), k) <==> has_key(c2.entries(), k) by {}
    lemma_sorted_lookup_pointwise(c1.entries(), c2.entries());
    lemma_render_pointwise(c1.entries(), c2.entries());
}

/// Insertion-order independence: collaborator registries that agree as
/// mappings — whatever order they list their triples in — yield the same
/// serialized text.
pub proof fn lemma_registry_order_irrelevant(
    a1: Seq<(String, CargoTarget)>,
    i1: Seq<(String, CargoTarget)>,
    a2: Seq<(String, CargoTarget)>,
    i2: Seq<(String, CargoTarget)>,
    c1: CargoConfig,
    c2: CargoConfig,
)
    requires
        generated_from(c1, a1, i1),
        generated_from(c2, a2, i2),
        forall|k: Seq<char>|
            #![trigger has_key(a1, k)]
            #![trigger has_key(a2, k)]
            has_key(a1, k) <==> has_key(a2, k),
        forall|k: Seq<char>|
            has_key(a1, k) ==> #[trigger] value_of(a1, k) == #[trigger] value_of(a2, k),
        forall|k: Seq<char>|
            #![trigger has_key(i1, k)]
            #![trigger has_key(i2, k)]
            has_key(i1, k) <==> has_key(i2, k),
        forall|k: Seq<char>|
            has_key(i1, k) ==> #[trigger] value_of(i1, k) == #[trigger] value_of(i2, k),
    ensures
        render_config(c1.entries()) == render_config(c2.entries()),
{
    assert forall|k: Seq<char>|
        #![trigger merged_has(a1, i1, k)]
        #![trigger merged_has(a2, i2, k)]
        merged_has(a1, i1, k) == merged_has(a2, i2, k) && (merged_has(a1, i1, k)
            ==> merged_value(a1, i1, k) == merged_value(a2, i2, k)) by {}
    assert forall|k: Seq<char>|
        #![trigger has_key(c1.entries(), k)]
        #![trigger has_key(c2.entries(), k)]
        has_key(c1.entries(), k) <==> has_key(c2.entries(), k) by {
        assert(has_key(c1.entries(), k) <==> merged_has(a1, i1, k) && !merged_value(
            a1,
            i1,
            k,
        ).is_empty());
        assert(has_key(c2.entries(), k) <==> merged_has(a2, i2, k) && !merged_value(
            a2,
            i2,
            k,
        ).is_empty());
    }
    assert forall|k: Seq<char>| has_key(c1.entries(), k) implies #[trigger] value_of(
        c1.entries(),
        k,
    ) == #[trigger] value_of(c2.entries(), k) by {
        assert(merged_has(a1, i1, k));
    }
    lemma_sorted_lookup_pointwise(c1.entries(), c2.entries());
    lemma_render_pointwise(c1.entries(), c2.entries());
}

/// The emptiness filter: a triple whose discovered override is empty never
/// appears in the generated configuration.
pub proof fn lemma_empty_override_absent(
    android: Seq<(String, CargoTarget)>,
    ios: Seq<(String, CargoTarget)>,
    c: CargoConfig,
    k: Seq<char>,
)
    requires
        generated_from(c, android, ios),
        merged_value(android, ios, k).is_empty(),
    ensures
        !has_key(c.entries(), k),
{
}

/// The desktop entry is always present and always non-empty, whatever the
/// collaborators reported — also when both registries are empty.
pub proof fn lemma_desktop_present(
    android: Seq<(String, CargoTarget)>,
    ios: Seq<(String, CargoTarget)>,
    c: CargoConfig,
)
    requires
        generated_from(c, android, ios),
    ensures
        !desktop_target().is_empty(),
        has_key(c.entries(), desktop_triple()),
        value_of(c.entries(), desktop_triple()) == desktop_target(),
{
    assert(merged_has(android, ios, desktop_triple()));
    assert(merged_value(android, ios, desktop_triple()) == desktop_target());
    assert(desktop_target().rustflags.len() == 4);
}

} // verus!
