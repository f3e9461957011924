//! The registry of themes: registrations keyed by numeric theme ID, each ID
//! registered once, listed in ID order.

use vstd::prelude::*;
use crate::error::RegistryError;
use crate::theme::ThemeRegistration;

verus! {

/// The numeric theme ID of a registration.
pub open spec fn theme_id_of(r: ThemeRegistration) -> u32 {
    r.registered().numeric_theme_id@
}

/// The generator revision of a registration.
pub open spec fn revision_of(r: ThemeRegistration) -> u32 {
    r.registered().generator_revision@
}

/// Whether some registration of `s` has theme ID `id`.
pub open spec fn id_taken(s: Seq<ThemeRegistration>, id: u32) -> bool {
    exists|j: int| 0 <= j < s.len() && theme_id_of(#[trigger] s[j]) == id
}

/// The theme ID of the first registration whose ID an earlier one already
/// has, if any.
pub open spec fn first_repeated_id(s: Seq<ThemeRegistration>) -> Option<u32>
    decreases s.len(),
{
    if s.len() == 0 {
        None
    } else {
        match first_repeated_id(s.drop_last()) {
            Some(id) => Some(id),
            None => if id_taken(s.drop_last(), theme_id_of(s.last())) {
                Some(theme_id_of(s.last()))
            } else {
                None
            },
        }
    }
}

/// `x` put into `s` before the first registration of a greater ID.
pub open spec fn id_insert(s: Seq<ThemeRegistration>, x: ThemeRegistration) -> Seq<ThemeRegistration>
    decreases s.len(),
{
    if s.len() == 0 {
        seq![x]
    } else if theme_id_of(x) <= theme_id_of(s[0]) {
        seq![x] + s
    } else {
        seq![s[0]] + id_insert(s.drop_first(), x)
    }
}

/// The registrations of `s` in order of theme ID.
pub open spec fn id_sorted(s: Seq<ThemeRegistration>) -> Seq<ThemeRegistration>
    decreases s.len(),
{
    if s.len() == 0 {
        s
    } else {
        id_insert(id_sorted(s.drop_last()), s.last())
    }
}

/// The first registration of `s` with theme ID `id`.
pub open spec fn lookup(s: Seq<ThemeRegistration>, id: u32) -> Option<ThemeRegistration>
    decreases s.len(),
{
    if s.len() == 0 {
        None
    } else if theme_id_of(s[0]) == id {
        Some(s[0])
    } else {
        lookup(s.drop_first(), id)
    }
}

/// Theme IDs strictly increase along `s`: listed in order, each once.
pub open spec fn ids_increasing(s: Seq<ThemeRegistration>) -> bool {
    forall|i: int, j: int| 0 <= i < j < s.len() ==> theme_id_of(#[trigger] s[i]) < theme_id_of(#[trigger] s[j])
}

/// The registrations of the themes, in order of theme ID.
pub struct Registry {
    entries: Vec<ThemeRegistration>,
}

impl Registry {
    /// The registrations are listed by increasing theme ID, each ID once.
    #[verifier::type_invariant]
    spec fn listed_once(self) -> bool {
        ids_increasing(self.entries@)
    }
}

proof fn lemma_id_insert_increasing(s: Seq<ThemeRegistration>, x: ThemeRegistration)
    requires
        ids_increasing(s),
        !id_taken(s, theme_id_of(x)),
    ensures
        ids_increasing(id_insert(s, x)),
        id_insert(s, x).len() == s.len() + 1,
        forall|k: u32| id_taken(id_insert(s, x), k) <==> (id_taken(s, k) || k == theme_id_of(x)),
    decreases s.len(),
{
    let r = id_insert(s, x);
    if s.len() == 0 {
        assert forall|k: u32| id_taken(r, k) <==> (id_taken(s, k) || k == theme_id_of(x)) by {
            if k == theme_id_of(x) {
                assert(theme_id_of(r[0]) == k);
            }
        }
    } else if theme_id_of(x) <= theme_id_of(s[0]) {
        assert(theme_id_of(s[0]) != theme_id_of(x)) by {
            if theme_id_of(s[0]) == theme_id_of(x) {
                assert(id_taken(s, theme_id_of(x)));
            }
        }
        assert forall|i: int, j: int| 0 <= i < j < r.len() implies theme_id_of(#[trigger] r[i]) < theme_id_of(
            #[trigger] r[j],
        ) by {
            if i == 0 {
                assert(r[j] == s[j - 1]);
                if j - 1 > 0 {
                    assert(theme_id_of(s[0]) < theme_id_of(s[j - 1]));
                }
            } else {
                assert(r[i] == s[i - 1]);
                assert(r[j] == s[j - 1]);
            }
        }
        assert forall|k: u32| id_taken(r, k) <==> (id_taken(s, k) || k == theme_id_of(x)) by {
            if id_taken(r, k) {
                let j = choose|j: int| 0 <= j < r.len() && theme_id_of(#[trigger] r[j]) == k;
                if j > 0 {
                    assert(r[j] == s[j - 1]);
                }
            }
            if id_taken(s, k) {
                let j = choose|j: int| 0 <= j < s.len() && theme_id_of(#[trigger] s[j]) == k;
                assert(r[j + 1] == s[j]);
            }
            if k == theme_id_of(x) {
                assert(theme_id_of(r[0]) == k);
            }
        }
    } else {
        let t = s.drop_first();
        assert(ids_increasing(t)) by {
            assert forall|i: int, j: int| 0 <= i < j < t.len() implies theme_id_of(#[trigger] t[i]) < theme_id_of(
                #[trigger] t[j],
            ) by {
                assert(t[i] == s[i + 1]);
                assert(t[j] == s[j + 1]);
            }
        }
        assert(!id_taken(t, theme_id_of(x))) by {
            if id_taken(t, theme_id_of(x)) {
                let j = choose|j: int| 0 <= j < t.len() && theme_id_of(#[trigger] t[j]) == theme_id_of(x);
                assert(s[j + 1] == t[j]);
            }
        }
        lemma_id_insert_increasing(t, x);
        let u = id_insert(t, x);
        assert forall|k: u32| id_taken(r, k) <==> (id_taken(s, k) || k == theme_id_of(x)) by {
            if id_taken(r, k) {
                let j = choose|j: int| 0 <= j < r.len() && theme_id_of(#[trigger] r[j]) == k;
                if j > 0 {
                    assert(r[j] == u[j - 1]);
                    assert(id_taken(u, k));
                    if id_taken(t, k) {
                        let m = choose|m: int| 0 <= m < t.len() && theme_id_of(#[trigger] t[m]) == k;
                        assert(s[m + 1] == t[m]);
                    }
                } else {
                    assert(theme_id_of(s[0]) == k);
                }
            }
            if id_taken(s, k) {
                let j = choose|j: int| 0 <= j < s.len() && theme_id_of(#[trigger] s[j]) == k;
                if j == 0 {
                    assert(theme_id_of(r[0]) == k);
                } else {
                    assert(t[j - 1] == s[j]);
                    assert(id_taken(t, k));
                    let m = choose|m: int| 0 <= m < u.len() && theme_id_of(#[trigger] u[m]) == k;
                    assert(r[m + 1] == u[m]);
                }
            }
            if k == theme_id_of(x) {
                let m = choose|m: int| 0 <= m < u.len() && theme_id_of(#[trigger] u[m]) == k;
                assert(r[m + 1] == u[m]);
            }
        }
        assert forall|i: int, j: int| 0 <= i < j < r.len() implies theme_id_of(#[trigger] r[i]) < theme_id_of(
            #[trigger] r[j],
        ) by {
            if i == 0 {
                assert(r[j] == u[j - 1]);
                assert(id_taken(u, theme_id_of(u[j - 1])));
                if id_taken(t, theme_id_of(u[j - 1])) {
                    let m = choose|m: int| 0 <= m < t.len() && theme_id_of(#[trigger] t[m]) == theme_id_of(u[j - 1]);
                    assert(t[m] == s[m + 1]);
                }
            } else {
                assert(r[i] == u[i - 1]);
                assert(r[j] == u[j - 1]);
            }
        }
    }
}

/// In a list by increasing theme ID, every listed registration is what a
/// lookup of its ID finds.
pub proof fn lemma_listed_registrations_found(s: Seq<ThemeRegistration>, i: int)
    requires
        ids_increasing(s),
        0 <= i < s.len(),
    ensures
        lookup(s, theme_id_of(s[i])) == Some(s[i]),
    decreases s.len(),
{
    if i > 0 {
        let t = s.drop_first();
        assert(theme_id_of(s[0]) < theme_id_of(s[i]));
        assert(ids_increasing(t)) by {
            assert forall|a: int, b: int| 0 <= a < b < t.len() implies theme_id_of(#[trigger] t[a]) < theme_id_of(
                #[trigger] t[b],
            ) by {
                assert(t[a] == s[a + 1]);
                assert(t[b] == s[b + 1]);
            }
        }
        assert(t[i - 1] == s[i]);
        lemma_listed_registrations_found(t, i - 1);
    }
}

/// A lookup finds only a registration of the ID asked for.
pub proof fn lemma_lookup_matches(s: Seq<ThemeRegistration>, id: u32)
    ensures
        lookup(s, id) matches Some(x) ==> theme_id_of(x) == id && s.contains(x),
    decreases s.len(),
{
    if s.len() > 0 && theme_id_of(s[0]) != id {
        lemma_lookup_matches(s.drop_first(), id);
        if lookup(s.drop_first(), id) is Some {
            let x = lookup(s.drop_first(), id)->0;
            let j = choose|j: int| 0 <= j < s.drop_first().len() && s.drop_first()[j] == x;
            assert(s[j + 1] == x);
        }
    } else if s.len() > 0 {
        assert(s[0] == s[0]);
    }
}

impl View for Registry {
    type V = Seq<ThemeRegistration>;

    closed spec fn view(&self) -> Seq<ThemeRegistration> {
        self.entries@
    }
}

fn id_taken_exec(s: &Vec<ThemeRegistration>, id: u32) -> (r: bool)
    ensures
        r == id_taken(s@, id),
{
    let mut i: usize = 0;
    while i < s.len()
        invariant
            i <= s@.len(),
            forall|j: int| 0 <= j < i ==> theme_id_of(#[trigger] s@[j]) != id,
        decreases s@.len() - i,
    {
        if s[i].numeric_theme_id() == id {
            return true;
        }
        i += 1;
    }
    false
}

fn id_insert_exec(s: &Vec<ThemeRegistration>, x: ThemeRegistration) -> (r: Vec<ThemeRegistration>)
    ensures
        r@ == id_insert(s@, x),
{
    let mut out: Vec<ThemeRegistration> = Vec::new();
    let mut i: usize = 0;
    let xid = x.numeric_theme_id();
    proof {
        assert(s@.skip(0) =~= s@);
    }
    while i < s.len() && s[i].numeric_theme_id() < xid
        invariant
            i <= s@.len(),
            xid == theme_id_of(x),
            out@ + id_insert(s@.skip(i as int), x) == id_insert(s@, x),
        decreases s@.len() - i,
    {
        proof {
            assert(s@.skip(i as int).drop_first() =~= s@.skip(i + 1));
        }
        let ghost before = out@;
        out.push(s[i]);
        proof {
            assert(before + (seq![s@[i as int]] + id_insert(s@.skip(i + 1), x)) =~= out@ + id_insert(
                s@.skip(i + 1),
                x,
            ));
        }
        i += 1;
    }
    let ghost prefix = out@;
    out.push(x);
    let mut j = i;
    while j < s.len()
        invariant
            i <= j <= s@.len(),
            out@ == prefix + seq![x] + s@.subrange(i as int, j as int),
        decreases s@.len() - j,
    {
        out.push(s[j]);
        proof {
            assert(out@ =~= prefix + seq![x] + s@.subrange(i as int, j + 1));
        }
        j += 1;
    }
    proof {
        assert(s@.subrange(i as int, s@.len() as int) =~= s@.skip(i as int));
        if i < s@.len() {
            assert(id_insert(s@.skip(i as int), x) == seq![x] + s@.skip(i as int));
        } else {
            assert(s@.skip(i as int) =~= Seq::<ThemeRegistration>::empty());
        }
        assert(out@ =~= prefix + id_insert(s@.skip(i as int), x));
    }
    out
}

impl Registry {
    /// The registry of `entries`: refused, with the theme ID, where an ID is
    /// registered a second time; otherwise the registrations in ID order.
    pub fn build(entries: Vec<ThemeRegistration>) -> (r: Result<Registry, RegistryError>)
        ensures
            match first_repeated_id(entries@) {
                Some(id) => r == Err::<Registry, RegistryError>(RegistryError::DuplicateThemeId { numeric_theme_id: id }),
                None => r matches Ok(registry) && registry@ == id_sorted(entries@),
            },
    {
        let mut seen: Vec<ThemeRegistration> = Vec::new();
        let mut sorted: Vec<ThemeRegistration> = Vec::new();
        let mut k: usize = 0;
        proof {
            assert(entries@.take(0) =~= Seq::<ThemeRegistration>::empty());
        }
        while k < entries.len()
            invariant
                k <= entries@.len(),
                seen@ == entries@.take(k as int),
                sorted@ == id_sorted(entries@.take(k as int)),
                first_repeated_id(entries@.take(k as int)) is None,
                ids_increasing(sorted@),
                forall|m: u32| id_taken(sorted@, m) <==> id_taken(seen@, m),
            decreases entries@.len() - k,
        {
            proof {
                assert(entries@.take(k + 1).drop_last() =~= entries@.take(k as int));
            }
            let entry = entries[k];
            let id = entry.numeric_theme_id();
            if id_taken_exec(&seen, id) {
                proof {
                    lemma_first_repeat_prefix(entries@, (k + 1) as nat);
                }
                return Err(RegistryError::DuplicateThemeId { numeric_theme_id: id });
            }
            proof {
                lemma_id_insert_increasing(sorted@, entry);
            }
            let ghost seen_before = seen@;
            let ghost sorted_before = sorted@;
            sorted = id_insert_exec(&sorted, entry);
            seen.push(entry);
            proof {
                assert forall|m: u32| id_taken(seen@, m) <==> (id_taken(seen_before, m) || m == id) by {
                    if id_taken(seen@, m) {
                        let j = choose|j: int| 0 <= j < seen@.len() && theme_id_of(#[trigger] seen@[j]) == m;
                        if j < seen_before.len() {
                            assert(seen_before[j] == seen@[j]);
                        }
                    }
                    if id_taken(seen_before, m) {
                        let j = choose|j: int| 0 <= j < seen_before.len() && theme_id_of(#[trigger] seen_before[j]) == m;
                        assert(seen@[j] == seen_before[j]);
                    }
                    if m == id {
                        assert(theme_id_of(seen@[seen_before.len() as int]) == m);
                    }
                }
                assert forall|m: u32| id_taken(sorted@, m) <==> id_taken(seen@, m) by {
                    assert(id_taken(sorted@, m) <==> (id_taken(sorted_before, m) || m == theme_id_of(entry)));
                    assert(id_taken(sorted_before, m) <==> id_taken(seen_before, m));
                }
            }
            proof {
                assert(seen@ =~= entries@.take(k + 1));
            }
            k += 1;
        }
        proof {
            assert(entries@.take(entries@.len() as int) =~= entries@);
        }
        Ok(Registry { entries: sorted })
    }

    /// The registration of theme `numeric_theme_id`, if it is registered.
    pub fn active_registration(&self, numeric_theme_id: u32) -> (r: Option<ThemeRegistration>)
        ensures
            r == lookup(self@, numeric_theme_id),
            r matches Some(x) ==> theme_id_of(x) == numeric_theme_id && self@.contains(x),
    {
        proof {
            lemma_lookup_matches(self@, numeric_theme_id);
        }
        let mut i: usize = 0;
        proof {
            assert(self.entries@.skip(0) =~= self.entries@);
        }
        while i < self.entries.len()
            invariant
                i <= self.entries@.len(),
                lookup(self.entries@.skip(i as int), numeric_theme_id) == lookup(self.entries@, numeric_theme_id),
            decreases self.entries@.len() - i,
        {
            proof {
                assert(self.entries@.skip(i as int).drop_first() =~= self.entries@.skip(i + 1));
            }
            if self.entries[i].numeric_theme_id() == numeric_theme_id {
                return Some(self.entries[i]);
            }
            i += 1;
        }
        None
    }

    /// The registration of theme `numeric_theme_id` when its generator
    /// revision is `generator_revision`.
    pub fn registration(&self, numeric_theme_id: u32, generator_revision: u32) -> (r: Option<ThemeRegistration>)
        ensures
            r == match lookup(self@, numeric_theme_id) {
                Some(x) => if revision_of(x) == generator_revision {
                    Some(x)
                } else {
                    None
                },
                None => None,
            },
    {
        match self.active_registration(numeric_theme_id) {
            Some(x) => if x.generator_revision() == generator_revision {
                Some(x)
            } else {
                None
            },
            None => None,
        }
    }

    /// The registrations, by strictly increasing theme ID; each is what a
    /// lookup of its ID finds.
    pub fn active_registrations(&self) -> (r: &[ThemeRegistration])
        ensures
            r@ == self@,
            ids_increasing(r@),
            forall|i: int| 0 <= i < r@.len() ==> lookup(self@, theme_id_of(#[trigger] r@[i])) == Some(r@[i]),
    {
        proof {
            use_type_invariant(self);
            assert forall|i: int| 0 <= i < self.entries@.len() implies lookup(
                self@,
                theme_id_of(#[trigger] self.entries@[i]),
            ) == Some(self.entries@[i]) by {
                lemma_listed_registrations_found(self.entries@, i);
            }
        }
        self.entries.as_slice()
    }
}

/// Once a prefix has a repeated ID, every longer prefix reports the same one;
/// a prefix without one that meets a taken ID reports that ID.
proof fn lemma_first_repeat_prefix(s: Seq<ThemeRegistration>, k: nat)
    requires
        0 < k <= s.len(),
        first_repeated_id(s.take(k - 1)) is None,
        id_taken(s.take(k - 1), theme_id_of(s[k - 1])),
    ensures
        first_repeated_id(s) == Some(theme_id_of(s[k - 1])),
    decreases s.len(),
{
    if s.len() == k {
        assert(s.take(k as int) =~= s);
        assert(s.drop_last() =~= s.take(k - 1));
    } else {
        assert(s.drop_last().take(k - 1) =~= s.take(k - 1));
        lemma_first_repeat_prefix(s.drop_last(), k);
    }
}

} // verus!
