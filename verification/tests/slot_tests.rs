use slot_correlator::slot::InvalidSymbol;
use slot_correlator::slot::SeqChar;

fn slot(symbol: u8) -> SeqChar {
    SeqChar::from_symbol(symbol).unwrap()
}

#[test]
fn first_slot_is_a() {
    assert_eq!(SeqChar::first().char(), 'a');
    assert_eq!(SeqChar::first().index(), 0);
    assert_eq!(SeqChar::first().to_symbol(), b'a');
}

#[test]
fn next_steps_through_the_alphabet() {
    let mut id = SeqChar::first();
    for expected in "bcdefghijklmnopqrstuvwxyz".chars() {
        id = id.next();
        assert_eq!(id.char(), expected);
    }
}

#[test]
fn next_wraps_from_z_to_a() {
    assert_eq!(slot(b'z').next(), slot(b'a'));
    assert_eq!(slot(b'z').next().char(), 'a');
}

#[test]
fn before_wraps_from_a_to_z() {
    assert_eq!(slot(b'a').before(), slot(b'z'));
    assert_eq!(slot(b'b').before(), slot(b'a'));
    assert_eq!(slot(b'n').before().char(), 'm');
}

#[test]
fn before_undoes_next_for_every_slot() {
    for symbol in b'a'..=b'z' {
        let id = slot(symbol);
        assert_eq!(id.next().before(), id);
        assert_eq!(id.before().next(), id);
    }
}

#[test]
fn twenty_six_steps_return_to_the_start() {
    for symbol in b'a'..=b'z' {
        let start = slot(symbol);
        let mut id = start;
        for step in 1..=26 {
            id = id.next();
            assert_eq!(id == start, step == 26);
        }
    }
}

#[test]
fn symbols_and_slots_correspond() {
    for (position, symbol) in (b'a'..=b'z').enumerate() {
        let id = slot(symbol);
        assert_eq!(id.index() as usize, position);
        assert_eq!(id.to_symbol(), symbol);
        assert_eq!(id.char(), symbol as char);
        assert_eq!(SeqChar::from_index(position as u8), Some(id));
    }
}

#[test]
fn from_symbol_rejects_what_is_outside_the_alphabet() {
    for symbol in 0u8..=255 {
        let r = SeqChar::from_symbol(symbol);
        if symbol.is_ascii_lowercase() {
            assert_eq!(r.map(|id| id.to_symbol()), Ok(symbol));
        } else {
            assert_eq!(r, Err(InvalidSymbol));
        }
    }
}

#[test]
fn from_index_rejects_positions_beyond_the_cycle() {
    assert_eq!(SeqChar::from_index(25), Some(slot(b'z')));
    assert_eq!(SeqChar::from_index(26), None);
    assert_eq!(SeqChar::from_index(255), None);
}

#[test]
fn from_str_reads_exactly_one_symbol() {
    assert_eq!(SeqChar::from_str("a"), Some(slot(b'a')));
    assert_eq!(SeqChar::from_str("m"), Some(slot(b'm')));
    assert_eq!(SeqChar::from_str("z"), Some(slot(b'z')));
    assert_eq!(SeqChar::from_str(""), None);
    assert_eq!(SeqChar::from_str("ab"), None);
    assert_eq!(SeqChar::from_str("A"), None);
    assert_eq!(SeqChar::from_str("1"), None);
    assert_eq!(SeqChar::from_str("{"), None);
    assert_eq!(SeqChar::from_str("`"), None);
    assert_eq!(SeqChar::from_str("\u{e9}"), None);
    assert_eq!(SeqChar::from_str("\u{161}"), None);
}
