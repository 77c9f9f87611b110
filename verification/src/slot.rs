//! The slot identifier space: 26 cyclic tags, written on the wire as the
//! lower-case letters `a` to `z`.

use vstd::prelude::*;
use vstd::relations::injective_on;
use vstd::set_lib::lemma_int_range;
use vstd::set_lib::lemma_map_size;
use vstd::set_lib::set_int_range;
use vstd::string::StrSliceExecFns;

verus! {

/// Number of slot identifiers, and so the length of one revolution.
pub const SLOT_COUNT: u8 = 26;

/// The wire symbol of the first slot, `a`.
pub const FIRST_SYMBOL: u8 = 0x61;

/// The wire symbol of the last slot, `z`.
pub const LAST_SYMBOL: u8 = 0x7a;

/// Error of a symbol that names no slot.
#[derive(Clone, Copy, Debug, PartialEq, Eq, Structural)]
pub struct InvalidSymbol;

/// One of the 26 slot identifiers.
///
/// The identifiers form a cycle: each has a successor and a predecessor, and
/// there is no order across the wrap from the last to the first.
#[derive(Clone, Copy, Debug, PartialEq, Eq, Structural, Hash)]
pub struct SeqChar {
    index: u8,
}

/// Whether `symbol` is one of the 26 wire symbols.
pub open spec fn is_slot_symbol(symbol: int) -> bool {
    FIRST_SYMBOL <= symbol <= LAST_SYMBOL
}

impl SeqChar {
    /// Validity of an identifier: its position lies within the cycle.
    #[verifier::type_invariant]
    pub closed spec fn wf(self) -> bool {
        self.index < SLOT_COUNT
    }

    /// Position of the identifier in the cycle, from 0 for `a` to 25 for `z`.
    pub closed spec fn position(self) -> int {
        self.index as int
    }

    /// The identifier at position `p`; meaningful for `0 <= p < 26`.
    pub closed spec fn at(p: int) -> SeqChar {
        SeqChar { index: p as u8 }
    }

    /// The wire symbol of the identifier, as a byte value.
    pub open spec fn symbol(self) -> int {
        FIRST_SYMBOL + self.position()
    }

    /// The successor in the cycle.
    pub open spec fn succ(self) -> SeqChar {
        SeqChar::at((self.position() + 1) % 26)
    }

    /// The predecessor in the cycle.
    pub open spec fn pred(self) -> SeqChar {
        SeqChar::at((self.position() + 25) % 26)
    }

    /// The identifier reached by `n` successor steps.
    pub open spec fn advance(self, n: nat) -> SeqChar
        decreases n,
    {
        if n == 0 {
            self
        } else {
            self.advance((n - 1) as nat).succ()
        }
    }

    /// A valid identifier's position lies in `0..26`, and the identifier is
    /// the one at its position.
    pub broadcast proof fn lemma_position_range(self)
        requires
            self.wf(),
        ensures
            0 <= #[trigger] self.position() < 26,
            SeqChar::at(self.position()) == self,
    {
    }

    /// Every position in `0..26` holds a valid identifier, found again by
    /// its position.
    pub broadcast proof fn lemma_at_position(p: int)
        requires
            0 <= p < 26,
        ensures
            (#[trigger] SeqChar::at(p)).wf(),
            SeqChar::at(p).position() == p,
    {
    }

    /// The first slot, `a`.
    pub fn first() -> (id: SeqChar)
        ensures
            id.wf(),
            id.position() == 0,
    {
        SeqChar { index: 0 }
    }

    /// The identifier at position `index`, if there is one.
    pub fn from_index(index: u8) -> (r: Option<SeqChar>)
        ensures
            index < 26 ==> r == Some(SeqChar::at(index as int)),
            index >= 26 ==> r.is_none(),
    {
        if index < SLOT_COUNT {
            Some(SeqChar { index })
        } else {
            None
        }
    }

    /// Position of the identifier in the cycle.
    pub fn index(&self) -> (i: u8)
        ensures
            self.wf(),
            i == self.position(),
            i < 26,
    {
        proof {
            use_type_invariant(self);
        }
        self.index
    }

    /// The successor of this identifier; the last slot is followed by the
    /// first.
    pub fn next(&self) -> (r: SeqChar)
        ensures
            self.wf(),
            r.wf(),
            r == self.succ(),
    {
        proof {
            use_type_invariant(self);
        }
        if self.index + 1 == SLOT_COUNT {
            SeqChar { index: 0 }
        } else {
            SeqChar { index: self.index + 1 }
        }
    }

    /// The predecessor of this identifier; the first slot is preceded by the
    /// last.
    pub fn before(&self) -> (r: SeqChar)
        ensures
            self.wf(),
            r.wf(),
            r == self.pred(),
    {
        proof {
            use_type_invariant(self);
        }
        if self.index == 0 {
            SeqChar { index: SLOT_COUNT - 1 }
        } else {
            SeqChar { index: self.index - 1 }
        }
    }

    /// The wire symbol of this identifier, as a byte.
    pub fn to_symbol(&self) -> (b: u8)
        ensures
            self.wf(),
            b == self.symbol(),
            is_slot_symbol(b as int),
    {
        proof {
            use_type_invariant(self);
        }
        FIRST_SYMBOL + self.index
    }

    /// The identifier that the byte `symbol` names.
    ///
    /// Fails for every byte outside `a..=z`.
    pub fn from_symbol(symbol: u8) -> (r: Result<SeqChar, InvalidSymbol>)
        ensures
            is_slot_symbol(symbol as int) ==> r == Ok::<SeqChar, InvalidSymbol>(
                SeqChar::at(symbol - FIRST_SYMBOL),
            ),
            !is_slot_symbol(symbol as int) ==> r == Err::<SeqChar, InvalidSymbol>(InvalidSymbol),
            r matches Ok(id) ==> id.wf() && id.symbol() == symbol,
    {
        if FIRST_SYMBOL <= symbol && symbol <= LAST_SYMBOL {
            Ok(SeqChar { index: symbol - FIRST_SYMBOL })
        } else {
            Err(InvalidSymbol)
        }
    }

    /// The wire symbol of this identifier, as a character.
    pub fn char(&self) -> (c: char)
        ensures
            self.wf(),
            c as int == self.symbol(),
    {
        let b: u8 = self.to_symbol();
        b as char
    }

    /// The identifier whose wire symbol is the whole of `s`.
    ///
    /// `None` for the empty string, for a string of more than one character,
    /// and for a single character outside `a..=z`.
    pub fn from_str(s: &str) -> (r: Option<SeqChar>)
        ensures
            names_slot(s@) ==> r == Some(SeqChar::at(s@[0] as int - FIRST_SYMBOL)),
            !names_slot(s@) ==> r.is_none(),
            r matches Some(id) ==> id.wf() && id.symbol() == s@[0] as int,
    {
        if s.unicode_len() != 1 {
            return None;
        }
        let c: char = s.get_char(0);
        if 'a' <= c && c <= 'z' {
            match SeqChar::from_symbol(c as u8) {
                Ok(id) => Some(id),
                Err(_) => None,
            }
        } else {
            None
        }
    }
}

/// Whether the text is exactly one of the 26 wire symbols.
pub open spec fn names_slot(text: Seq<char>) -> bool {
    text.len() == 1 && is_slot_symbol(text[0] as int)
}

/// The predecessor undoes the successor.
pub proof fn lemma_pred_succ(id: SeqChar)
    requires
        id.wf(),
    ensures
        id.succ().wf(),
        id.succ().pred() == id,
{
}

/// The successor undoes the predecessor.
pub proof fn lemma_succ_pred(id: SeqChar)
    requires
        id.wf(),
    ensures
        id.pred().wf(),
        id.pred().succ() == id,
{
}

/// `n` successor steps move a valid identifier `n` positions round the cycle.
pub proof fn lemma_advance_position(id: SeqChar, n: nat)
    requires
        id.wf(),
    ensures
        id.advance(n).wf(),
        id.advance(n).position() == (id.position() + n) % 26,
    decreases n,
{
    if n > 0 {
        lemma_advance_position(id, (n - 1) as nat);
    }
}

/// One revolution, 26 successor steps, returns to the identifier it began
/// with.
pub proof fn lemma_revolution(id: SeqChar)
    requires
        id.wf(),
    ensures
        id.advance(26) == id,
{
    lemma_advance_position(id, 26);
    id.lemma_position_range();
    id.advance(26).lemma_position_range();
}

/// No successor step leaves the cycle before a revolution is complete: fewer
/// than 26 steps, and at least one, end on another identifier.
pub proof fn lemma_no_early_return(id: SeqChar, n: nat)
    requires
        id.wf(),
        0 < n < 26,
    ensures
        id.advance(n) != id,
{
    lemma_advance_position(id, n);
}

/// Two valid identifiers with the same wire symbol are the same identifier.
pub proof fn lemma_symbol_injective(a: SeqChar, b: SeqChar)
    requires
        a.wf(),
        b.wf(),
        a.symbol() == b.symbol(),
    ensures
        a == b,
{
}

/// Reading back the symbol that an identifier writes finds the identifier.
pub proof fn lemma_symbol_roundtrip(id: SeqChar)
    requires
        id.wf(),
    ensures
        is_slot_symbol(id.symbol()),
        SeqChar::at(id.symbol() - FIRST_SYMBOL) == id,
{
}

/// The set of all valid identifiers.
pub open spec fn all_slots() -> Set<SeqChar> {
    Set::new(|id: SeqChar| id.wf())
}

/// There are exactly 26 identifiers.
pub proof fn lemma_slot_count()
    ensures
        all_slots().finite(),
        all_slots().len() == 26,
{
    let positions = set_int_range(0, 26);
    let at = |p: int| SeqChar::at(p);
    lemma_int_range(0, 26);
    assert forall|id: SeqChar| all_slots().contains(id) implies positions.map(at).contains(
        id,
    ) by {
        id.lemma_position_range();
        assert(positions.contains(id.position()) && at(id.position()) == id);
    }
    assert forall|id: SeqChar| positions.map(at).contains(id) implies all_slots().contains(
        id,
    ) by {
        let p = choose|p: int| positions.contains(p) && at(p) == id;
        SeqChar::lemma_at_position(p);
    }
    assert(positions.map(at) =~= all_slots());
    assert(injective_on(at, positions)) by {
        assert forall|p: int, q: int|
            positions.contains(p) && positions.contains(q) && at(p) == at(q) implies p == q by {
            SeqChar::lemma_at_position(p);
            SeqChar::lemma_at_position(q);
        }
    }
    lemma_map_size(positions, all_slots(), at);
}

} // verus!
