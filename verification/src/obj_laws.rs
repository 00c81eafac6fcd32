//! Which record of a mesh file adds to which stream, and which entries a face corner names.

use crate::float::Float32;
use crate::obj::{fields, key_in, obj_line, signed_number, values_from, ObjState};
use crate::records::{reading_value, single_reading, words};
use vstd::prelude::*;

verus! {

/// Whether a number names an entry of a stream: it counts from one at the front, or, below zero,
/// from the back.
pub open spec fn names_entry(field: Seq<char>, entry: usize, length: nat) -> bool {
    &&& entry < length
    &&& signed_number(field) matches Some(number) && number != 0 && entry == (if number > 0 {
        number - 1
    } else {
        length + number
    })
}

/// Whether a field of a face corner names an entry of a stream, or is left out with it.
pub open spec fn may_name_entry(
    list: Seq<Seq<char>>,
    at: int,
    entry: Option<usize>,
    length: nat,
) -> bool {
    if at < list.len() && list[at].len() > 0 {
        entry matches Some(found) && names_entry(list[at], found, length)
    } else {
        entry is None
    }
}

/// The first field of an accepted face corner names a position, the second a texture coordinate and
/// the third a normal; the latter two may be left out.
pub proof fn law_corners_name_their_entries(state: ObjState, token: Seq<char>)
    requires
        key_in(state, token) is Ok,
        state.positions.len() <= usize::MAX,
        state.texcoords.len() <= usize::MAX,
        state.normals.len() <= usize::MAX,
    ensures
        ({
            let key = key_in(state, token)->Ok_0;
            let list = fields(token);
            &&& list.len() <= 3
            &&& names_entry(list[0], key.position, state.positions.len())
            &&& may_name_entry(list, 1, key.texcoord, state.texcoords.len())
            &&& may_name_entry(list, 2, key.normal, state.normals.len())
        }),
{
}

/// Whether a word writes a number.
pub open spec fn writes_value(word: Seq<char>, value: Float32) -> bool {
    !(single_reading(word) is Invalid) && value == reading_value(single_reading(word))
}

proof fn lemma_values(list: Seq<Seq<char>>, record: Seq<char>, index: int, found: Seq<Float32>)
    requires
        0 <= index <= list.len(),
        values_from(list, record, index, found) is Ok,
    ensures
        ({
            let values = values_from(list, record, index, found)->Ok_0;
            &&& values.len() == found.len() + list.len() - index
            &&& forall|i: int| 0 <= i < found.len() ==> values[i] == found[i]
            &&& forall|i: int|
                index <= i < list.len() ==> writes_value(
                    list[i],
                    #[trigger] values[found.len() + i - index],
                )
        }),
    decreases list.len() - index,
{
    if index < list.len() {
        let longer = found.push(reading_value(single_reading(list[index])));
        lemma_values(list, record, index + 1, longer);
        let values = values_from(list, record, index, found)->Ok_0;
        assert forall|i: int| 0 <= i < found.len() implies values[i] == found[i] by {
            assert(longer[i] == found[i]);
        }
        assert(values[found.len() as int] == longer[found.len() as int]);
        assert forall|i: int| index <= i < list.len() implies writes_value(
            list[i],
            #[trigger] values[found.len() + i - index],
        ) by {
            if i > index {
                assert(writes_value(list[i], values[longer.len() + i - (index + 1)]));
            }
        }
    }
}

proof fn lemma_stream_names()
    ensures
        "v"@ =~= seq!['v'],
        "vt"@ =~= seq!['v', 't'],
        "vn"@ =~= seq!['v', 'n'],
{
    reveal_strlit("v");
    reveal_strlit("vt");
    reveal_strlit("vn");
}

/// An accepted stream record adds what it writes to the end of its stream and changes nothing else:
/// `v` to the positions, `vt` to the texture coordinates and `vn` to the normals.
pub proof fn law_stream_records_add_to_their_stream(state: ObjState, content: Seq<char>)
    requires
        words(content).len() > 0,
        obj_line(state, content) is Ok,
    ensures
        ({
            let list = words(content);
            let next = obj_line(state, content)->Ok_0;
            &&& list[0] == "v"@ ==> {
                let value = next.positions.last();
                &&& list.len() >= 4
                &&& next == (ObjState { positions: state.positions.push(value), ..state })
                &&& writes_value(list[1], value.x)
                &&& writes_value(list[2], value.y)
                &&& writes_value(list[3], value.z)
            }
            &&& list[0] == "vt"@ ==> {
                let value = next.texcoords.last();
                &&& list.len() >= 3
                &&& next == (ObjState { texcoords: state.texcoords.push(value), ..state })
                &&& writes_value(list[1], value.x)
                &&& writes_value(list[2], value.y)
            }
            &&& list[0] == "vn"@ ==> {
                let value = next.normals.last();
                &&& list.len() >= 4
                &&& next == (ObjState { normals: state.normals.push(value), ..state })
                &&& writes_value(list[1], value.x)
                &&& writes_value(list[2], value.y)
                &&& writes_value(list[3], value.z)
            }
        }),
{
    lemma_stream_names();
    let list = words(content);
    let none = Seq::<Float32>::empty();
    if list[0] == "v"@ || list[0] == "vt"@ || list[0] == "vn"@ {
        lemma_values(list, list[0], 1, none);
        let values = values_from(list, list[0], 1, none)->Ok_0;
        assert(list.len() >= 2 ==> writes_value(list[1], values[none.len() + 1 - 1]));
        assert(list.len() >= 3 ==> writes_value(list[2], values[none.len() + 2 - 1]));
        assert(list.len() >= 4 ==> writes_value(list[3], values[none.len() + 3 - 1]));
    }
}

} // verus!
