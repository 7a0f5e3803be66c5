use vstd::prelude::*;

use crate::strings::str_eq;

verus! {

/// Which format to use for diagnostics.
#[derive(Debug, Copy, Clone, PartialEq, Eq)]
pub enum DiagnosticFormat {
    Human,
    Short,
}

impl DiagnosticFormat {
    /// The default format, [`DiagnosticFormat::Human`].
    pub fn default_format() -> (r: DiagnosticFormat)
        ensures
            r == DiagnosticFormat::Human,
    {
        DiagnosticFormat::Human
    }
}

/// A slot index into a [`FeatureSet`].
#[derive(Debug, Clone, Copy)]
pub struct FeatureSlot(pub u16);

/// The index of the slot that the diagnostic format is stored in.
pub const DIAG_FEATURE: u16 = 0;

/// A set of compile features: one text value per slot.
#[derive(Debug)]
pub struct FeatureSet {
    features: Vec<String>,
}

/// The slots of a feature set after `value` was stored in `slot`: the list
/// grows with empty values up to `slot` where it was shorter.
pub open spec fn configured(fs: Seq<Seq<char>>, slot: int, value: Seq<char>) -> Seq<Seq<char>> {
    let grown = if slot < fs.len() {
        fs
    } else {
        fs + Seq::new((slot + 1 - fs.len()) as nat, |i: int| Seq::<char>::empty())
    };
    grown.update(slot, value)
}

/// The text stored in a slot, where a missing slot reads as empty.
pub open spec fn slot_text(fs: Seq<Seq<char>>, slot: int) -> Seq<char> {
    if 0 <= slot < fs.len() {
        fs[slot]
    } else {
        Seq::empty()
    }
}

impl View for FeatureSet {
    type V = Seq<Seq<char>>;

    closed spec fn view(&self) -> Seq<Seq<char>> {
        Seq::new(self.features@.len(), |i: int| self.features@[i]@)
    }
}

impl FeatureSet {
    /// A feature set with no slot configured.
    pub fn new() -> (r: FeatureSet)
        ensures
            r@ == Seq::<Seq<char>>::empty(),
    {
        let r = FeatureSet { features: Vec::new() };
        assert(r@ =~= Seq::<Seq<char>>::empty());
        r
    }

    /// A copy of this feature set.
    pub fn clone_set(&self) -> (r: FeatureSet)
        ensures
            r@ == self@,
    {
        let mut features: Vec<String> = Vec::new();
        let mut i: usize = 0;
        while i < self.features.len()
            invariant
                i <= self.features@.len(),
                features@.len() == i,
                forall|k: int| 0 <= k < i ==> #[trigger] features@[k]@ == self.features@[k]@,
            decreases self.features@.len() - i,
        {
            features.push(self.features[i].clone());
            i = i + 1;
        }
        let r = FeatureSet { features };
        assert(r@ =~= self@);
        r
    }

    /// Configures `feature` with `value`.
    pub fn configure<T: CompileFeature<V>, V>(self, feature: &T, value: V) -> (r: FeatureSet)
        ensures
            r@ == feature.spec_configure(self@, value),
    {
        feature.configure(self, value)
    }

    /// Stores `value` in `slot`, growing the set with empty values as needed.
    pub fn configure_slot(self, slot: FeatureSlot, value: String) -> (r: FeatureSet)
        ensures
            r@ == configured(self@, slot.0 as int, value@),
    {
        let slot = slot.0 as usize;
        let mut features = self.features;
        let ghost old_view = Seq::new(features@.len(), |i: int| features@[i]@);
        assert(old_view == self@);
        while features.len() <= slot
            invariant
                features@.len() >= old_view.len(),
                forall|k: int| 0 <= k < old_view.len() ==> #[trigger] features@[k]@ == old_view[k],
                forall|k: int| old_view.len() <= k < features@.len() ==> #[trigger] features@[k]@ == Seq::<char>::empty(),
                features@.len() <= slot + 1 || features@.len() == old_view.len(),
            decreases slot + 1 - features@.len(),
        {
            features.push(String::new());
        }
        features.set(slot, value);
        let r = FeatureSet { features };
        assert(r@ =~= configured(old_view, slot as int, value@));
        r
    }

    /// The value stored in `slot`, if the set reaches that far.
    pub fn slot(&self, slot: FeatureSlot) -> (r: Option<&String>)
        ensures
            (slot.0 < self@.len()) == (r is Some),
            r matches Some(s) ==> s@ == self@[slot.0 as int],
    {
        let slot = slot.0 as usize;
        if slot < self.features.len() {
            Some(&self.features[slot])
        } else {
            None
        }
    }
}

/// A compile feature: a value of type `T` stored in a [`FeatureSet`].
pub trait CompileFeature<T> {
    /// The slots after `value` was configured into `fs`.
    spec fn spec_configure(&self, fs: Seq<Seq<char>>, value: T) -> Seq<Seq<char>>;

    /// The value that `fs` holds for this feature.
    spec fn spec_retrieve(&self, fs: Seq<Seq<char>>) -> T;

    /// Stores `value` in `features`.
    fn configure(&self, features: FeatureSet, value: T) -> (r: FeatureSet)
        ensures
            r@ == self.spec_configure(features@, value),
    ;

    /// Reads this feature's value from `features`.
    fn retrieve(&self, features: &FeatureSet) -> (r: T)
        ensures
            r == self.spec_retrieve(features@),
    ;
}

/// The diagnostic format feature, stored in [`DIAG_FEATURE`] as `""` (human)
/// or `"s"` (short).
#[derive(Debug, Clone, Copy)]
pub struct DiagFmtFeature;

/// The text that encodes the short diagnostic format.
pub open spec fn short_text() -> Seq<char> {
    seq!['s']
}

/// The text that encodes `true` for a boolean feature.
pub open spec fn true_text() -> Seq<char> {
    seq!['1']
}

impl CompileFeature<DiagnosticFormat> for DiagFmtFeature {
    open spec fn spec_configure(&self, fs: Seq<Seq<char>>, value: DiagnosticFormat) -> Seq<
        Seq<char>,
    > {
        configured(
            fs,
            0,
            match value {
                DiagnosticFormat::Human => Seq::empty(),
                DiagnosticFormat::Short => short_text(),
            },
        )
    }

    open spec fn spec_retrieve(&self, fs: Seq<Seq<char>>) -> DiagnosticFormat {
        if slot_text(fs, 0) == short_text() {
            DiagnosticFormat::Short
        } else {
            DiagnosticFormat::Human
        }
    }

    fn configure(&self, features: FeatureSet, value: DiagnosticFormat) -> (r: FeatureSet) {
        let text = match value {
            DiagnosticFormat::Human => String::new(),
            DiagnosticFormat::Short => "s".to_owned(),
        };
        proof {
            reveal_strlit("s");
            assert("s"@ =~= short_text());
        }
        features.configure_slot(FeatureSlot(DIAG_FEATURE), text)
    }

    fn retrieve(&self, features: &FeatureSet) -> (r: DiagnosticFormat) {
        proof {
            reveal_strlit("s");
            assert("s"@ =~= short_text());
        }
        match features.slot(FeatureSlot(DIAG_FEATURE)) {
            Some(s) => if str_eq(s.as_str(), "s") {
                DiagnosticFormat::Short
            } else {
                DiagnosticFormat::default_format()
            },
            None => DiagnosticFormat::default_format(),
        }
    }
}

/// A boolean feature stored in its own slot as `"1"` (true) or `""` (false).
#[derive(Debug)]
pub struct BuiltinFeature<T> {
    slot: FeatureSlot,
    _marker: std::marker::PhantomData<T>,
}

impl<T> BuiltinFeature<T> {
    /// A feature stored in `slot`.
    pub fn new(slot: FeatureSlot) -> (r: BuiltinFeature<T>)
        ensures
            r.slot_index() == slot.0,
    {
        BuiltinFeature { slot, _marker: std::marker::PhantomData }
    }

    /// The slot this feature is stored in.
    pub closed spec fn slot_index(&self) -> u16 {
        self.slot.0
    }
}

impl CompileFeature<bool> for BuiltinFeature<bool> {
    open spec fn spec_configure(&self, fs: Seq<Seq<char>>, value: bool) -> Seq<Seq<char>> {
        configured(
            fs,
            self.slot_index() as int,
            if value {
                true_text()
            } else {
                Seq::empty()
            },
        )
    }

    open spec fn spec_retrieve(&self, fs: Seq<Seq<char>>) -> bool {
        slot_text(fs, self.slot_index() as int) == true_text()
    }

    fn configure(&self, features: FeatureSet, value: bool) -> (r: FeatureSet) {
        let text = if value {
            "1".to_owned()
        } else {
            String::new()
        };
        proof {
            reveal_strlit("1");
            assert("1"@ =~= true_text());
        }
        features.configure_slot(self.slot, text)
    }

    fn retrieve(&self, features: &FeatureSet) -> (r: bool) {
        proof {
            reveal_strlit("1");
            assert("1"@ =~= true_text());
        }
        match features.slot(self.slot) {
            Some(s) => str_eq(s.as_str(), "1"),
            None => false,
        }
    }
}

/// Storing a value in a slot changes what that slot reads and nothing else.
pub proof fn lemma_configured_slot_text(fs: Seq<Seq<char>>, slot: int, value: Seq<char>, t: int)
    requires
        0 <= slot,
    ensures
        slot_text(configured(fs, slot, value), t) == if t == slot {
            value
        } else {
            slot_text(fs, t)
        },
{
}

/// A diagnostic format read back after it was configured is the one
/// configured, whatever the set held before.
pub proof fn lemma_diag_format_roundtrip(feature: DiagFmtFeature, fs: Seq<Seq<char>>, value: DiagnosticFormat)
    ensures
        feature.spec_retrieve(feature.spec_configure(fs, value)) == value,
{
    lemma_configured_slot_text(fs, 0, match value {
        DiagnosticFormat::Human => Seq::empty(),
        DiagnosticFormat::Short => short_text(),
    }, 0);
    if value == DiagnosticFormat::Human {
        assert(Seq::<char>::empty() != short_text()) by {
            assert(short_text().len() == 1);
        }
    }
}

/// A boolean feature read back after it was configured is the value
/// configured, whatever the set held before.
pub proof fn lemma_builtin_feature_roundtrip(feature: BuiltinFeature<bool>, fs: Seq<Seq<char>>, value: bool)
    ensures
        feature.spec_retrieve(feature.spec_configure(fs, value)) == value,
{
    let text = if value { true_text() } else { Seq::empty() };
    lemma_configured_slot_text(fs, feature.slot_index() as int, text, feature.slot_index() as int);
    if !value {
        assert(Seq::<char>::empty() != true_text()) by {
            assert(true_text().len() == 1);
        }
    }
}

/// Configuring a boolean feature leaves what the diagnostic format reads
/// unchanged, as long as the two use different slots.
pub proof fn lemma_features_independent(diag: DiagFmtFeature, b: BuiltinFeature<bool>, fs: Seq<Seq<char>>, value: bool)
    requires
        b.slot_index() != 0,
    ensures
        diag.spec_retrieve(b.spec_configure(fs, value)) == diag.spec_retrieve(fs),
{
    let text = if value { true_text() } else { Seq::empty() };
    lemma_configured_slot_text(fs, b.slot_index() as int, text, 0);
}

/// Configuring the diagnostic format leaves every boolean feature on another
/// slot reading what it read before.
pub proof fn lemma_diag_leaves_builtin(diag: DiagFmtFeature, b: BuiltinFeature<bool>, fs: Seq<Seq<char>>, value: DiagnosticFormat)
    requires
        b.slot_index() != 0,
    ensures
        b.spec_retrieve(diag.spec_configure(fs, value)) == b.spec_retrieve(fs),
{
    let text = match value {
        DiagnosticFormat::Human => Seq::empty(),
        DiagnosticFormat::Short => short_text(),
    };
    lemma_configured_slot_text(fs, 0, text, b.slot_index() as int);
}

/// Hands out feature slots, one after another, starting after the slot of
/// the diagnostic format. The counter wraps around, as an atomic one does.
#[derive(Debug)]
pub struct SlotAllocator {
    pub next: u16,
}

impl SlotAllocator {
    /// An allocator whose first slot is `1`.
    pub fn new() -> (r: SlotAllocator)
        ensures
            r.next == 1,
    {
        SlotAllocator { next: 1 }
    }

    /// The next slot.
    pub fn allocate(&mut self) -> (r: FeatureSlot)
        ensures
            r.0 == old(self).next,
            final(self).next == advance(old(self).next),
    {
        let r = FeatureSlot(self.next);
        self.next = self.next.wrapping_add(1);
        r
    }
}

/// A feature slot that is allocated the first time it is asked for.
#[derive(Debug)]
pub struct LazySlot {
    pub slot: Option<FeatureSlot>,
}

impl LazySlot {
    /// A slot not yet allocated.
    pub fn new() -> (r: LazySlot)
        ensures
            r.slot is None,
    {
        LazySlot { slot: None }
    }

    /// The slot: the one allocated before, or a new one from `alloc`, which
    /// is then kept.
    pub fn get(&mut self, alloc: &mut SlotAllocator) -> (r: FeatureSlot)
        ensures
            match old(self).slot {
                Some(s) => r == s && final(alloc).next == old(alloc).next,
                None => r.0 == old(alloc).next && final(alloc).next == advance(old(alloc).next),
            },
            final(self).slot == Some(r),
    {
        match self.slot {
            Some(s) => s,
            None => {
                let s = alloc.allocate();
                self.slot = Some(s);
                s
            },
        }
    }
}

/// The counter after one allocation.
pub open spec fn advance(next: u16) -> u16 {
    if next == u16::MAX {
        0
    } else {
        (next + 1) as u16
    }
}

/// The counter of a fresh allocator after `k` allocations.
pub open spec fn next_after(k: nat) -> u16
    decreases k,
{
    if k == 0 {
        1
    } else {
        advance(next_after((k - 1) as nat))
    }
}

/// Slots handed out by a fresh allocator never clash with each other or
/// with the diagnostic format's slot, as long as fewer than `u16::MAX` are
/// asked for: the slot of the `k`-th allocation (from zero) is `k + 1`.
pub proof fn lemma_slots_distinct(k: nat, j: nat)
    requires
        k < j < u16::MAX,
    ensures
        next_after(k) == k + 1,
        next_after(k) != next_after(j),
        next_after(k) != DIAG_FEATURE,
        next_after(j) != DIAG_FEATURE,
    decreases j,
{
    lemma_next_after(j);
    lemma_next_after(k);
}

proof fn lemma_next_after(k: nat)
    requires
        k < u16::MAX,
    ensures
        next_after(k) == k + 1,
    decreases k,
{
    if k > 0 {
        lemma_next_after((k - 1) as nat);
    }
}

} // verus!
