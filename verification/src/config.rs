//! The toolchain-override data model and the assembly of the final,
//! pruned, sorted target configuration.

use vstd::prelude::*;
use vstd::string::StringExecFns;
use crate::order::lex_lt;
use crate::order::str_lt;
use crate::order::lemma_lex_irrefl;
use crate::order::lemma_lex_trichotomy;
use crate::order::lemma_lex_trans;
use crate::render::entries_ok;
use crate::render::render_config;
use crate::render::render_entry_str;
use crate::render::seq_ok;
use crate::render::target_ok;

verus! {

/// One target's toolchain override: which archiver and linker to use in
/// place of the defaults, and extra compiler flags for the target. An
/// absent field means "keep the build system's default". Flag order is
/// significant: flags that take a value must stay adjacent to it.
#[derive(Debug)]
pub struct CargoTarget {
    pub ar: Option<String>,
    pub linker: Option<String>,
    pub rustflags: Vec<String>,
}

/// The mathematical value of a [`CargoTarget`]: its strings as character
/// sequences.
pub ghost struct TargetView {
    pub ar: Option<Seq<char>>,
    pub linker: Option<Seq<char>>,
    pub rustflags: Seq<Seq<char>>,
}

impl TargetView {
    /// An override is empty iff it overrides nothing at all: no archiver,
    /// no linker, and no flags.
    pub open spec fn is_empty(self) -> bool {
        self.ar is None && self.linker is None && self.rustflags.len() == 0
    }
}

impl View for CargoTarget {
    type V = TargetView;

    open spec fn view(&self) -> TargetView {
        TargetView {
            ar: match self.ar {
                Some(a) => Some(a@),
                None => None,
            },
            linker: match self.linker {
                Some(l) => Some(l@),
                None => None,
            },
            rustflags: self.rustflags@.map_values(|f: String| f@),
        }
    }
}

impl CargoTarget {
    /// True iff this override carries no setting, in which case it is
    /// pruned from the generated file.
    pub fn is_empty(&self) -> (b: bool)
        ensures
            b == self@.is_empty(),
    {
        self.ar.is_none() && self.linker.is_none() && self.rustflags.len() == 0
    }
}

impl Default for CargoTarget {
    /// The empty override: nothing replaced, no extra flags.
    fn default() -> (t: Self)
        ensures
            t@.is_empty(),
    {
        CargoTarget { ar: None, linker: None, rustflags: Vec::new() }
    }
}

/// Whether some entry of `e` carries the triple `k`.
pub open spec fn has_key(e: Seq<(String, CargoTarget)>, k: Seq<char>) -> bool {
    exists|j: int| 0 <= j < e.len() && (#[trigger] e[j].0@) == k
}

/// An index of the entry carrying the triple `k`.
pub open spec fn key_index(e: Seq<(String, CargoTarget)>, k: Seq<char>) -> int {
    choose|j: int| 0 <= j < e.len() && (#[trigger] e[j].0@) == k
}

/// The override recorded under the triple `k`.
pub open spec fn value_of(e: Seq<(String, CargoTarget)>, k: Seq<char>) -> TargetView {
    e[key_index(e, k)].1@
}

/// No two entries carry the same triple.
pub open spec fn unique_keys(e: Seq<(String, CargoTarget)>) -> bool {
    forall|i: int, j: int|
        0 <= i < j < e.len() ==> (#[trigger] e[i].0@) != (#[trigger] e[j].0@)
}

/// The entries stand in strictly increasing lexicographic order of triple.
pub open spec fn sorted_keys(e: Seq<(String, CargoTarget)>) -> bool {
    forall|i: int, j: int|
        0 <= i < j < e.len() ==> lex_lt(#[trigger] e[i].0@, #[trigger] e[j].0@)
}

/// Strictly sorted entries carry pairwise distinct triples.
pub proof fn lemma_sorted_unique(e: Seq<(String, CargoTarget)>)
    requires
        sorted_keys(e),
    ensures
        unique_keys(e),
{
    assert forall|i: int, j: int| 0 <= i < j < e.len() implies (#[trigger] e[i].0@)
        != (#[trigger] e[j].0@) by {
        assert(lex_lt(e[i].0@, e[j].0@));
        lemma_lex_irrefl(e[i].0@);
    }
}

/// With unique triples, the entry at any index is exactly the one its
/// triple looks up.
pub proof fn lemma_value_at(e: Seq<(String, CargoTarget)>, j: int)
    requires
        unique_keys(e),
        0 <= j < e.len(),
    ensures
        has_key(e, e[j].0@),
        key_index(e, e[j].0@) == j,
        value_of(e, e[j].0@) == e[j].1@,
{
    assert(has_key(e, e[j].0@));
    let jj = key_index(e, e[j].0@);
    assert(0 <= jj < e.len() && e[jj].0@ == e[j].0@);
    if jj < j {
        assert(e[jj].0@ != e[j].0@);
    } else if j < jj {
        assert(e[j].0@ != e[jj].0@);
    }
}

/// Inserting an entry into a sequence with unique triples adds its triple
/// and leaves every other lookup unchanged.
pub proof fn lemma_lookup_insert(e: Seq<(String, CargoTarget)>, lo: int, p: (String, CargoTarget))
    requires
        0 <= lo <= e.len(),
        unique_keys(e.insert(lo, p)),
    ensures
        forall|k: Seq<char>| #[trigger] has_key(e.insert(lo, p), k) <==> has_key(e, k) || k
            == p.0@,
        value_of(e.insert(lo, p), p.0@) == p.1@,
        forall|k: Seq<char>|
            has_key(e, k) && k != p.0@ ==> #[trigger] value_of(e.insert(lo, p), k) == value_of(
                e,
                k,
            ),
{
    let ei = e.insert(lo, p);
    e.insert_ensures(lo, p);
    assert forall|i: int| 0 <= i < e.len() implies #[trigger] e[i] == (if i < lo {
        ei[i]
    } else {
        ei[i + 1]
    }) by {}
    assert(unique_keys(e)) by {
        assert forall|i: int, j: int| 0 <= i < j < e.len() implies (#[trigger] e[i].0@)
            != (#[trigger] e[j].0@) by {
            let ii = if i < lo { i } else { i + 1 };
            let jj = if j < lo { j } else { j + 1 };
            assert(e[i] == ei[ii]);
            assert(e[j] == ei[jj]);
        }
    }
    assert forall|k: Seq<char>| #[trigger] has_key(ei, k) implies has_key(e, k) || k == p.0@ by {
        let j = key_index(ei, k);
        assert(0 <= j < ei.len() && ei[j].0@ == k);
        if j < lo {
            assert(e[j] == ei[j]);
            assert(has_key(e, k));
        } else if j > lo {
            assert(e[j - 1] == ei[j]);
            assert(has_key(e, k));
        }
    }
    assert forall|k: Seq<char>| has_key(e, k) || k == p.0@ implies #[trigger] has_key(ei, k) by {
        if has_key(e, k) {
            let j = key_index(e, k);
            assert(0 <= j < e.len() && e[j].0@ == k);
            let jj = if j < lo { j } else { j + 1 };
            assert(ei[jj].0@ == k);
        } else {
            assert(ei[lo].0@ == k);
        }
    }
    lemma_value_at(ei, lo);
    assert forall|k: Seq<char>| has_key(e, k) && k != p.0@ implies #[trigger] value_of(ei, k)
        == value_of(e, k) by {
        let j = key_index(e, k);
        assert(0 <= j < e.len() && e[j].0@ == k);
        lemma_value_at(e, j);
        let jj = if j < lo { j } else { j + 1 };
        assert(ei[jj] == e[j]);
        lemma_value_at(ei, jj);
    }
}

/// Appending an entry behaves like inserting it at the end.
pub proof fn lemma_lookup_push(e: Seq<(String, CargoTarget)>, p: (String, CargoTarget))
    requires
        unique_keys(e.push(p)),
    ensures
        forall|k: Seq<char>| #[trigger] has_key(e.push(p), k) <==> has_key(e, k) || k == p.0@,
        value_of(e.push(p), p.0@) == p.1@,
        forall|k: Seq<char>|
            has_key(e, k) && k != p.0@ ==> #[trigger] value_of(e.push(p), k) == value_of(e, k),
{
    assert(e.push(p) =~= e.insert(e.len() as int, p));
    lemma_lookup_insert(e, e.len() as int, p);
}

/// A prefix of entries with unique triples again has unique triples.
pub proof fn lemma_unique_take(e: Seq<(String, CargoTarget)>, i: int)
    requires
        unique_keys(e),
        0 <= i <= e.len(),
    ensures
        unique_keys(e.take(i)),
{
    assert forall|x: int, y: int| 0 <= x < y < e.take(i).len() implies (#[trigger] e.take(i)[x].0@)
        != (#[trigger] e.take(i)[y].0@) by {
        assert(e.take(i)[x] == e[x]);
        assert(e.take(i)[y] == e[y]);
    }
}

/// The triple of the native desktop hot-reload target.
pub open spec fn desktop_triple() -> Seq<char> {
    "x86_64-apple-darwin"@
}

/// The hand-authored override for the native desktop hot-reload target: no
/// archiver or linker override, and flags that enable native-CPU code
/// generation and leave headerpad room so the dylib install name can be
/// rewritten after linking, as dylib hot reloading requires.
pub open spec fn desktop_target() -> TargetView {
    TargetView {
        ar: None,
        linker: None,
        rustflags: seq![
            "-C"@,
            "target-cpu=native"@,
            "-C"@,
            "link-arg=-headerpad_max_install_names"@,
        ],
    }
}

/// Builds the desktop entry.
fn desktop_entry() -> (p: (String, CargoTarget))
    ensures
        p.0@ == desktop_triple(),
        p.1@ == desktop_target(),
        !p.1@.is_empty(),
{
    let mut flags: Vec<String> = Vec::new();
    flags.push("-C".to_owned());
    flags.push("target-cpu=native".to_owned());
    flags.push("-C".to_owned());
    flags.push("link-arg=-headerpad_max_install_names".to_owned());
    let t = CargoTarget { ar: None, linker: None, rustflags: flags };
    proof {
        assert(t@.rustflags =~= desktop_target().rustflags);
    }
    ("x86_64-apple-darwin".to_owned(), t)
}

/// Which triples the merged, unpruned mapping holds: everything either
/// discovery collaborator reported, plus the desktop entry.
pub open spec fn merged_has(
    android: Seq<(String, CargoTarget)>,
    ios: Seq<(String, CargoTarget)>,
    k: Seq<char>,
) -> bool {
    k == desktop_triple() || has_key(ios, k) || has_key(android, k)
}

/// The override the merged mapping holds for `k`. Later insertions win:
/// the desktop entry over both collaborators, iOS over Android.
pub open spec fn merged_value(
    android: Seq<(String, CargoTarget)>,
    ios: Seq<(String, CargoTarget)>,
    k: Seq<char>,
) -> TargetView {
    if k == desktop_triple() {
        desktop_target()
    } else if has_key(ios, k) {
        value_of(ios, k)
    } else {
        value_of(android, k)
    }
}

/// The generation contract: the configuration holds exactly the non-empty
/// merged overrides, each under its triple, sorted by triple.
pub open spec fn generated_from(
    c: CargoConfig,
    android: Seq<(String, CargoTarget)>,
    ios: Seq<(String, CargoTarget)>,
) -> bool {
    &&& c.wf()
    &&& forall|k: Seq<char>|
        #![trigger has_key(c.entries(), k)]
        #![trigger merged_has(android, ios, k)]
        has_key(c.entries(), k) <==> merged_has(android, ios, k) && !merged_value(
            android,
            ios,
            k,
        ).is_empty()
    &&& forall|k: Seq<char>|
        has_key(c.entries(), k) ==> #[trigger] value_of(c.entries(), k) == merged_value(
            android,
            ios,
            k,
        )
}

/// Why a generation run aborted.
#[derive(Debug)]
pub enum Error {
    /// The Android host environment could not be initialized; carries the
    /// discovery collaborator's report.
    EnvironmentInit(String),
    /// An entry holds a string that cannot stand in the rendered document;
    /// carries the entry's triple.
    Serialization(String),
}

/// The assembled target configuration: a mapping from target triple to
/// non-empty toolchain override, kept strictly sorted by triple so that
/// rendering it is deterministic.
#[derive(Debug)]
pub struct CargoConfig {
    target: Vec<(String, CargoTarget)>,
}

/// Inserts `p` among entries kept strictly sorted by triple; an entry
/// already carrying the same triple is replaced (last write wins).
fn insert_sorted(v: &mut Vec<(String, CargoTarget)>, p: (String, CargoTarget))
    requires
        sorted_keys(old(v)@),
    ensures
        sorted_keys(final(v)@),
        forall|k: Seq<char>| #[trigger] has_key(final(v)@, k) <==> has_key(old(v)@, k) || k
            == p.0@,
        value_of(final(v)@, p.0@) == p.1@,
        forall|k: Seq<char>|
            has_key(old(v)@, k) && k != p.0@ ==> #[trigger] value_of(final(v)@, k) == value_of(
                old(v)@,
                k,
            ),
{
    proof {
        lemma_sorted_unique(old(v)@);
    }
    let mut lo: usize = 0;
    loop
        invariant
            lo <= v@.len(),
            v@ == old(v)@,
            sorted_keys(v@),
            forall|j: int| 0 <= j < lo ==> lex_lt(#[trigger] v@[j].0@, p.0@),
        ensures
            lo <= v@.len(),
            v@ == old(v)@,
            forall|j: int| 0 <= j < lo ==> lex_lt(#[trigger] v@[j].0@, p.0@),
            lo == v@.len() || !lex_lt(v@[lo as int].0@, p.0@),
        decreases v@.len() - lo,
    {
        if lo >= v.len() {
            break ;
        }
        if !str_lt(v[lo].0.as_str(), p.0.as_str()) {
            break ;
        }
        lo += 1;
    }
    let ghost pre = v@;
    let same = lo < v.len() && v[lo].0 == p.0;
    if same {
        v.remove(lo);
        v.insert(lo, p);
        proof {
            let u = pre.update(lo as int, p);
            assert(v@ =~= u);
            assert(pre[lo as int].0@ == p.0@);
            assert forall|i: int| 0 <= i < u.len() implies (#[trigger] u[i].0@)
                == pre[i].0@ by {}
            assert(sorted_keys(u)) by {
                assert forall|i: int, j: int| 0 <= i < j < u.len() implies lex_lt(
                    #[trigger] u[i].0@,
                    #[trigger] u[j].0@,
                ) by {
                    assert(lex_lt(pre[i].0@, pre[j].0@));
                }
            }
            lemma_sorted_unique(u);
            assert forall|k: Seq<char>| #[trigger] has_key(u, k) implies has_key(pre, k) || k
                == p.0@ by {
                let j = key_index(u, k);
                assert(0 <= j < u.len() && u[j].0@ == k);
                assert(pre[j].0@ == k);
                assert(has_key(pre, k));
            }
            assert forall|k: Seq<char>| has_key(pre, k) || k == p.0@ implies #[trigger] has_key(
                u,
                k,
            ) by {
                if has_key(pre, k) {
                    let j = key_index(pre, k);
                    assert(0 <= j < pre.len() && pre[j].0@ == k);
                    assert(u[j].0@ == k);
                } else {
                    assert(u[lo as int].0@ == k);
                }
            }
            lemma_value_at(u, lo as int);
            assert forall|k: Seq<char>| has_key(pre, k) && k != p.0@ implies #[trigger] value_of(
                u,
                k,
            ) == value_of(pre, k) by {
                lemma_sorted_unique(pre);
                let j = key_index(pre, k);
                assert(0 <= j < pre.len() && pre[j].0@ == k);
                lemma_value_at(pre, j);
                assert(j != lo);
                assert(u[j] == pre[j]);
                lemma_value_at(u, j);
            }
        }
    } else {
        v.insert(lo, p);
        proof {
            let u = pre.insert(lo as int, p);
            pre.insert_ensures(lo as int, p);
            assert(v@ == u);
            if lo < pre.len() {
                assert(pre[lo as int].0@ != p.0@);
                lemma_lex_trichotomy(pre[lo as int].0@, p.0@);
                assert(lex_lt(p.0@, pre[lo as int].0@));
            }
            assert(sorted_keys(u)) by {
                assert forall|i: int, j: int| 0 <= i < j < u.len() implies lex_lt(
                    #[trigger] u[i].0@,
                    #[trigger] u[j].0@,
                ) by {
                    if i < lo && j < lo {
                        assert(u[i] == pre[i]);
                        assert(u[j] == pre[j]);
                    } else if i < lo && j == lo {
                        assert(u[i] == pre[i]);
                        assert(lex_lt(pre[i].0@, p.0@));
                    } else if i < lo && j > lo {
                        assert(u[i] == pre[i]);
                        assert(u[j] == pre[j - 1]);
                        assert(lex_lt(pre[i].0@, pre[j - 1].0@));
                    } else if i == lo {
                        assert(u[j] == pre[j - 1]);
                        assert(j - 1 >= lo);
                        if j - 1 > lo {
                            assert(lex_lt(pre[lo as int].0@, pre[j - 1].0@));
                            lemma_lex_trans(p.0@, pre[lo as int].0@, pre[j - 1].0@);
                        }
                    } else {
                        assert(u[i] == pre[i - 1]);
                        assert(u[j] == pre[j - 1]);
                        assert(lex_lt(pre[i - 1].0@, pre[j - 1].0@));
                    }
                }
            }
            lemma_sorted_unique(u);
            lemma_lookup_insert(pre, lo as int, p);
        }
    }
}

impl CargoConfig {
    /// The entries in the order they are rendered.
    pub closed spec fn entries(&self) -> Seq<(String, CargoTarget)> {
        self.target@
    }

    /// Well-formed: strictly sorted by triple and free of empty overrides.
    pub open spec fn wf(&self) -> bool {
        &&& sorted_keys(self.entries())
        &&& forall|j: int|
            0 <= j < self.entries().len() ==> !(#[trigger] self.entries()[j].1@.is_empty())
    }

    /// Assembles the configuration for one generation run from the two
    /// discovery collaborators' outputs. `android` carries either the
    /// overrides discovered for the Android registry's triples, or the
    /// failure report of the host-environment initialization, which aborts
    /// the whole run. `ios` carries the overrides discovered for the iOS
    /// registry's triples; iOS discovery cannot fail. The result holds
    /// exactly the non-empty overrides among the discovered ones, the
    /// desktop entry always among them, sorted by triple.
    pub fn generate(
        android: Result<Vec<(String, CargoTarget)>, String>,
        ios: Vec<(String, CargoTarget)>,
    ) -> (r: Result<CargoConfig, Error>)
        requires
            android matches Ok(a) ==> unique_keys(a@),
            unique_keys(ios@),
        ensures
            match r {
                Ok(c) => android matches Ok(a) && generated_from(c, a@, ios@),
                Err(e) => android matches Err(m) && e == Error::EnvironmentInit(m),
            },
    {
        let mut androids = match android {
            Ok(v) => v,
            Err(m) => {
                return Err(Error::EnvironmentInit(m));
            },
        };
        let ghost a0 = androids@;
        let ghost i0 = ios@;
        let mut merged: Vec<(String, CargoTarget)> = Vec::new();
        let ghost mut done: int = 0;
        proof {
            assert(a0.skip(0) =~= a0);
        }
        while androids.len() > 0
            invariant
                unique_keys(a0),
                0 <= done <= a0.len(),
                androids@ == a0.skip(done),
                sorted_keys(merged@),
                forall|k: Seq<char>| #[trigger] has_key(merged@, k) <==> has_key(
                    a0.take(done),
                    k,
                ),
                forall|k: Seq<char>|
                    has_key(merged@, k) ==> #[trigger] value_of(merged@, k) == value_of(
                        a0.take(done),
                        k,
                    ),
            decreases androids@.len(),
        {
            let p = androids.remove(0);
            proof {
                assert(p == a0[done]);
                assert(androids@ =~= a0.skip(done + 1));
            }
            let ghost pre = merged@;
            insert_sorted(&mut merged, p);
            proof {
                lemma_unique_take(a0, done + 1);
                assert(a0.take(done + 1) =~= a0.take(done).push(a0[done]));
                lemma_lookup_push(a0.take(done), a0[done]);
                done = done + 1;
            }
        }
        proof {
            assert(a0.take(done) =~= a0);
        }
        let mut ioss = ios;
        proof {
            assert(i0.skip(0) =~= i0);
            done = 0;
        }
        while ioss.len() > 0
            invariant
                unique_keys(i0),
                0 <= done <= i0.len(),
                ioss@ == i0.skip(done),
                sorted_keys(merged@),
                forall|k: Seq<char>| #[trigger] has_key(merged@, k) <==> has_key(a0, k)
                    || has_key(i0.take(done), k),
                forall|k: Seq<char>|
                    has_key(merged@, k) ==> #[trigger] value_of(merged@, k) == (if has_key(
                        i0.take(done),
                        k,
                    ) {
                        value_of(i0.take(done), k)
                    } else {
                        value_of(a0, k)
                    }),
            decreases ioss@.len(),
        {
            let p = ioss.remove(0);
            proof {
                assert(p == i0[done]);
                assert(ioss@ =~= i0.skip(done + 1));
            }
            insert_sorted(&mut merged, p);
            proof {
                lemma_unique_take(i0, done + 1);
                assert(i0.take(done + 1) =~= i0.take(done).push(i0[done]));
                lemma_lookup_push(i0.take(done), i0[done]);
                done = done + 1;
            }
        }
        proof {
            assert(i0.take(done) =~= i0);
        }
        let desktop = desktop_entry();
        insert_sorted(&mut merged, desktop);
        proof {
            assert forall|k: Seq<char>| #[trigger] has_key(merged@, k) <==> merged_has(
                a0,
                i0,
                k,
            ) by {}
            assert forall|k: Seq<char>| has_key(merged@, k) implies #[trigger] value_of(
                merged@,
                k,
            ) == merged_value(a0, i0, k) by {}
        }
        // Prune the entries that override nothing.
        let ghost m0 = merged@;
        let ghost mut fi: int = 0;
        let mut pruned: Vec<(String, CargoTarget)> = Vec::new();
        proof {
            lemma_sorted_unique(m0);
            assert(m0.skip(0) =~= m0);
        }
        while merged.len() > 0
            invariant
                sorted_keys(m0),
                unique_keys(m0),
                0 <= fi <= m0.len(),
                merged@ == m0.skip(fi),
                sorted_keys(pruned@),
                forall|x: int|
                    0 <= x < pruned@.len() ==> exists|j: int|
                        0 <= j < fi && (#[trigger] pruned@[x]) == m0[j],
                forall|x: int| 0 <= x < pruned@.len() ==> !(#[trigger] pruned@[x].1@.is_empty()),
                forall|k: Seq<char>| #[trigger] has_key(pruned@, k) <==> has_key(m0.take(fi), k)
                    && !value_of(m0.take(fi), k).is_empty(),
                forall|k: Seq<char>|
                    has_key(pruned@, k) ==> #[trigger] value_of(pruned@, k) == value_of(
                        m0.take(fi),
                        k,
                    ),
            decreases merged@.len(),
        {
            let p = merged.remove(0);
            proof {
                assert(p == m0[fi]);
                assert(merged@ =~= m0.skip(fi + 1));
                lemma_unique_take(m0, fi + 1);
                assert(m0.take(fi + 1) =~= m0.take(fi).push(m0[fi]));
                lemma_lookup_push(m0.take(fi), m0[fi]);
                assert(!has_key(m0.take(fi), m0[fi].0@)) by {
                    if has_key(m0.take(fi), m0[fi].0@) {
                        let j = key_index(m0.take(fi), m0[fi].0@);
                        assert(0 <= j < fi && m0.take(fi)[j].0@ == m0[fi].0@);
                        assert(m0[j].0@ == m0[fi].0@);
                    }
                }
            }
            let keep = !p.1.is_empty();
            if keep {
                let ghost prepruned = pruned@;
                pruned.push(p);
                proof {
                    assert forall|x: int| 0 <= x < prepruned.len() implies lex_lt(
                        (#[trigger] prepruned[x]).0@,
                        p.0@,
                    ) by {
                        let j = choose|j: int| 0 <= j < fi && prepruned[x] == m0[j];
                        assert(lex_lt(m0[j].0@, m0[fi].0@));
                    }
                    assert(sorted_keys(pruned@)) by {
                        assert forall|x: int, y: int| 0 <= x < y < pruned@.len() implies lex_lt(
                            (#[trigger] pruned@[x]).0@,
                            (#[trigger] pruned@[y]).0@,
                        ) by {
                            if y < prepruned.len() {
                                assert(pruned@[x] == prepruned[x]);
                                assert(pruned@[y] == prepruned[y]);
                            } else {
                                assert(pruned@[y] == p);
                                assert(pruned@[x] == prepruned[x]);
                            }
                        }
                    }
                    lemma_sorted_unique(pruned@);
                    lemma_lookup_push(prepruned, p);
                    assert forall|x: int| 0 <= x < pruned@.len() implies exists|j: int|
                        0 <= j < fi + 1 && (#[trigger] pruned@[x]) == m0[j] by {
                        if x < prepruned.len() {
                            assert(pruned@[x] == prepruned[x]);
                            let j = choose|j: int| 0 <= j < fi && prepruned[x] == m0[j];
                            assert(0 <= j < fi + 1 && pruned@[x] == m0[j]);
                        } else {
                            assert(pruned@[x] == m0[fi]);
                        }
                    }
                }
            }
            proof {
                fi = fi + 1;
            }
        }
        proof {
            assert(m0.take(fi) =~= m0);
        }
        let c = CargoConfig { target: pruned };
        proof {
            assert forall|k: Seq<char>|
                #![trigger has_key(c.entries(), k)]
                #![trigger merged_has(a0, i0, k)]
                has_key(c.entries(), k) <==> merged_has(a0, i0, k) && !merged_value(
                a0,
                i0,
                k,
            ).is_empty() by {}
        }
        Ok(c)
    }

    /// Renders the configuration as the deterministic document: one table
    /// per entry, in entry order. Fails only when some entry holds a string
    /// that cannot be represented, which the data model never produces.
    pub fn serialize(&self) -> (r: Result<String, Error>)
        ensures
            r is Ok <==> entries_ok(self.entries()),
            r matches Ok(text) ==> text@ == render_config(self.entries()),
            r matches Err(e) ==> e is Serialization,
    {
        let mut out = String::new();
        let n = self.target.len();
        let mut idx: usize = 0;
        proof {
            assert(self.target@.take(0) =~= Seq::<(String, CargoTarget)>::empty());
        }
        while idx < n
            invariant
                n == self.target@.len(),
                idx <= n,
                out@ == render_config(self.target@.take(idx as int)),
                forall|j: int|
                    0 <= j < idx ==> seq_ok(#[trigger] self.target@[j].0@) && target_ok(
                        self.target@[j].1@,
                    ),
            decreases n - idx,
        {
            let pair = &self.target[idx];
            let piece = match render_entry_str(&pair.0, &pair.1) {
                Some(s) => s,
                None => {
                    proof {
                        assert(self.target@[idx as int].0@ == pair.0@);
                        assert(!(seq_ok(self.target@[idx as int].0@) && target_ok(
                            self.target@[idx as int].1@,
                        )));
                    }
                    return Err(Error::Serialization(pair.0.clone()));
                },
            };
            out.append(piece.as_str());
            proof {
                assert(self.target@.take(idx + 1).drop_last() =~= self.target@.take(idx as int));
                assert(self.target@.take(idx + 1).last() == self.target@[idx as int]);
                assert(self.target@[idx as int].0@ == pair.0@);
                assert(self.target@[idx as int].1@ == pair.1@);
                assert forall|j: int| 0 <= j < idx + 1 implies seq_ok(
                    #[trigger] self.target@[j].0@,
                ) && target_ok(self.target@[j].1@) by {
                    if j == idx {
                        assert(seq_ok(pair.0@));
                        assert(target_ok(pair.1@));
                    }
                }
            }
            idx += 1;
        }
        proof {
            assert(self.target@.take(n as int) =~= self.target@);
        }
        Ok(out)
    }

    /// The number of entries.
    pub fn target_count(&self) -> (n: usize)
        ensures
            n == self.entries().len(),
    {
        self.target.len()
    }

    /// The triple of the entry at position `j`.
    pub fn triple_at(&self, j: usize) -> (t: &String)
        requires
            j < self.entries().len(),
        ensures
            t@ == self.entries()[j as int].0@,
    {
        &self.target[j].0
    }

    /// The override of the entry at position `j`.
    pub fn override_at(&self, j: usize) -> (t: &CargoTarget)
        requires
            j < self.entries().len(),
        ensures
            t@ == self.entries()[j as int].1@,
    {
        &self.target[j].1
    }
}

} // verus!
