//! Interned identifiers.
use vstd::prelude::*;

verus! {

/// The handle of an interned string.
#[derive(Clone, Copy, Debug, PartialEq, Eq, Hash, Structural)]
pub struct SymbolId(pub u32);

/// Maps each distinct string to one [`SymbolId`] and back.
pub struct StringInterner {
    strings: Vec<String>,
}

/// No string occurs twice.
pub open spec fn distinct_strings(s: Seq<Seq<char>>) -> bool {
    forall|i: int, j: int| 0 <= i < j < s.len() ==> #[trigger] s[i] != #[trigger] s[j]
}

impl View for StringInterner {
    /// The interned strings; a symbol is its position here.
    type V = Seq<Seq<char>>;

    closed spec fn view(&self) -> Seq<Seq<char>> {
        self.strings@.map_values(|s: String| s@)
    }
}

impl StringInterner {
    /// Well-formed: at most `u32::MAX` strings, none of them twice.
    pub open spec fn wf(&self) -> bool {
        &&& self@.len() <= u32::MAX
        &&& distinct_strings(self@)
    }

    /// Whether `id` was handed out by this interner.
    pub open spec fn has(&self, id: SymbolId) -> bool {
        (id.0 as int) < self@.len()
    }

    /// The text of `id`.
    pub open spec fn text(&self, id: SymbolId) -> Seq<char> {
        self@[id.0 as int]
    }

    pub fn new() -> (i: Self)
        ensures
            i@ == Seq::<Seq<char>>::empty(),
            i.wf(),
    {
        let i = StringInterner { strings: Vec::new() };
        assert(i@ =~= Seq::<Seq<char>>::empty());
        i
    }

    /// Returns the symbol of `text`, adding `text` if it was not interned before.
    pub fn intern(&mut self, text: &str) -> (id: SymbolId)
        requires
            old(self).wf(),
            old(self)@.len() < u32::MAX,
        ensures
            final(self).wf(),
            final(self).has(id),
            final(self).text(id) == text@,
            old(self)@.contains(text@) ==> final(self)@ == old(self)@,
            !old(self)@.contains(text@) ==> final(self)@ == old(self)@.push(text@),
    {
        let owned = text.to_owned();
        let mut i: usize = 0;
        while i < self.strings.len()
            invariant
                0 <= i <= self.strings@.len(),
                owned@ == text@,
                self.wf(),
                self@.len() == self.strings@.len(),
                forall|j: int| 0 <= j < i ==> self@[j] != text@,
            decreases self.strings@.len() - i,
        {
            if self.strings[i] == owned {
                assert(self@[i as int] == self.strings@[i as int]@);
                return SymbolId(i as u32);
            }
            i = i + 1;
        }
        let ghost before = self@;
        assert forall|j: int| 0 <= j < before.len() implies before[j] != text@ by {}
        assert(!before.contains(text@));
        let id = SymbolId(self.strings.len() as u32);
        let mut strings: Vec<String> = Vec::new();
        std::mem::swap(&mut strings, &mut self.strings);
        strings.push(owned);
        self.strings = strings;
        assert(self@ =~= before.push(text@));
        assert forall|a: int, b: int| 0 <= a < b < self@.len() implies #[trigger] self@[a] != #[trigger] self@[b] by {
            if b == before.len() {
                assert(before[a] == self@[a]);
            } else {
                assert(before[a] == self@[a] && before[b] == self@[b]);
            }
        }
        id
    }

    /// The text of a symbol.
    pub fn resolve(&self, id: SymbolId) -> (s: &str)
        requires
            self.has(id),
        ensures
            s@ == self.text(id),
    {
        self.strings[id.0 as usize].as_str()
    }

    pub fn len(&self) -> (n: usize)
        ensures
            n == self@.len(),
    {
        self.strings.len()
    }
}

/// Interning is idempotent and faithful: what is interned reads back unchanged, equal
/// texts get equal symbols and different texts different symbols.
pub proof fn lemma_intern_laws(m: &StringInterner, a: SymbolId, b: SymbolId)
    requires
        m.wf(),
        m.has(a),
        m.has(b),
    ensures
        (a == b) <==> (m.text(a) == m.text(b)),
{
    if m.text(a) == m.text(b) && a != b {
        if a.0 < b.0 {
            assert(m@[a.0 as int] == m@[b.0 as int]);
        } else {
            assert(m@[b.0 as int] == m@[a.0 as int]);
        }
    }
}

} // verus!
