use vstd::prelude::*;

use crate::text::{
    chars_of, find_char, index_of, lemma_index_of, nat_to_digits, parse_bounded, parse_unsigned,
    spec_parse_nat, sub_chars, lemma_nat_to_digits,
};

verus! {

/// The 64-bit form of an entity id from its index and generation: the
/// generation in the high 32 bits, or-ed with the index.
pub open spec fn id_bits(index: u64, generation: u64) -> u64 {
    (generation << 32u64) | index
}

/// An index and a generation that name an entity: the index fits in 32
/// bits, and the generation is positive and below 2^31 (the top bit of the
/// high half marks ids that are not entities).
pub open spec fn entity_parts(index: nat, generation: nat) -> bool {
    index < 0x1_0000_0000 && 0 < generation < 0x8000_0000
}

/// What `{index}v{generation}` text denotes: the text before the first `v`
/// and the text after it, up to any further `v`, each a decimal number, that
/// together name an entity.
pub open spec fn spec_str_to_id(s: Seq<char>) -> Option<u64> {
    let k = index_of(s, 'v');
    if k == s.len() {
        None
    } else {
        let rest = s.skip(k + 1);
        let i = s.take(k);
        let g = rest.take(index_of(rest, 'v'));
        match (parse_bounded(i, u64::MAX as nat), parse_bounded(g, u64::MAX as nat)) {
            (Some(index), Some(generation)) => if entity_parts(index, generation) {
                Some(id_bits(index as u64, generation as u64))
            } else {
                None
            },
            _ => None,
        }
    }
}

/// Reads an entity id written `{index}v{generation}` (as the inspect
/// commands show it) and gives its 64-bit form; text that names no entity
/// gives nothing.
pub fn str_to_id(s: &str) -> (r: Option<u64>)
    ensures
        r == spec_str_to_id(s@),
{
    let v = chars_of(s);
    let k = find_char(&v, 0, 'v');
    assert(v@.skip(0) =~= v@);
    proof {
        lemma_index_of(v@, 'v');
    }
    if k == v.len() {
        return None;
    }
    let k2 = find_char(&v, k + 1, 'v');
    proof {
        lemma_index_of(v@.skip(k + 1), 'v');
    }
    let i = sub_chars(&v, 0, k);
    let g = sub_chars(&v, k + 1, k2);
    proof {
        let rest = v@.skip(k + 1);
        lemma_index_of(rest, 'v');
        assert(i@ =~= v@.take(k as int));
        assert(g@ =~= rest.take(index_of(rest, 'v')));
    }
    match (parse_unsigned(&i, u64::MAX), parse_unsigned(&g, u64::MAX)) {
        (Some(index), Some(generation)) => {
            if index < 0x1_0000_0000 && 0 < generation && generation < 0x8000_0000 {
                Some((generation << 32u64) | index)
            } else {
                None
            }
        },
        _ => None,
    }
}

/// The canonical text of an id, `{index}v{generation}` in decimal, reads
/// back as the id's 64-bit form, whose low half is the index and whose high
/// half is the generation.
pub proof fn lemma_id_text_round_trip(index: u64, generation: u64)
    requires
        entity_parts(index as nat, generation as nat),
    ensures
        spec_str_to_id(nat_to_digits(index as nat) + seq!['v'] + nat_to_digits(
            generation as nat,
        )) == Some(id_bits(index, generation)),
        id_bits(index, generation) as nat == generation as nat * 0x1_0000_0000 + index as nat,
{
    let di = nat_to_digits(index as nat);
    let dg = nat_to_digits(generation as nat);
    let s = di + seq!['v'] + dg;
    lemma_nat_to_digits(index as nat);
    lemma_nat_to_digits(generation as nat);
    assert forall|j: int| 0 <= j < di.len() implies s[j] != 'v' by {
        assert(s[j] == di[j]);
        assert(crate::text::is_digit(di[j]));
    }
    crate::text::lemma_index_of_unique(s, 'v', di.len() as int);
    let rest = s.skip(di.len() as int + 1);
    assert(rest =~= dg);
    assert forall|j: int| 0 <= j < dg.len() implies dg[j] != 'v' by {
        assert(crate::text::is_digit(dg[j]));
    }
    crate::text::lemma_index_of_unique(dg, 'v', dg.len() as int);
    assert(s.take(di.len() as int) =~= di);
    assert(dg.take(dg.len() as int) =~= dg);
    assert(spec_parse_nat(di) == Some(index as nat));
    assert(spec_parse_nat(dg) == Some(generation as nat));
    assert(id_bits(index, generation) as nat == generation as nat * 0x1_0000_0000 + index as nat)
        by (bit_vector)
        requires
            index < 0x1_0000_0000,
            generation < 0x1_0000_0000,
    ;
}

} // verus!
