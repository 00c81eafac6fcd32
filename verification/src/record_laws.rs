//! Which record of a material library sets which property.

use crate::float::Float32;
use crate::material::{
    after_line, color_in, is_material_record, map_path, number_in, numbers_from, record_name,
    record_rest, MtlModel, Progress,
};
use crate::math::Vec3;
use crate::records::{reading_value, single_reading, words};
use vstd::prelude::*;

verus! {

/// Whether a word writes a finite number.
pub open spec fn writes_number(word: Seq<char>, value: Float32) -> bool {
    single_reading(word) is Finite && value == reading_value(single_reading(word))
}

/// Whether the first three words of a text write a color.
pub open spec fn writes_color(text: Seq<char>, color: Vec3) -> bool {
    &&& words(text).len() >= 3
    &&& writes_number(words(text)[0], color.x)
    &&& writes_number(words(text)[1], color.y)
    &&& writes_number(words(text)[2], color.z)
}

proof fn lemma_numbers(
    values: Seq<Seq<char>>,
    record: Seq<char>,
    index: int,
    found: Seq<Float32>,
)
    requires
        0 <= index <= values.len(),
        numbers_from(values, record, index, found) is Ok,
    ensures
        ({
            let numbers = numbers_from(values, record, index, found)->Ok_0;
            &&& numbers.len() == found.len() + values.len() - index
            &&& forall|i: int| 0 <= i < found.len() ==> numbers[i] == found[i]
            &&& forall|i: int|
                index <= i < values.len() ==> writes_number(
                    values[i],
                    #[trigger] numbers[found.len() + i - index],
                )
        }),
    decreases values.len() - index,
{
    if index < values.len() {
        let value = number_in(values[index], record)->Ok_0;
        let longer = found.push(value);
        lemma_numbers(values, record, index + 1, longer);
        let numbers = numbers_from(values, record, index, found)->Ok_0;
        assert forall|i: int| 0 <= i < found.len() implies numbers[i] == found[i] by {
            assert(longer[i] == found[i]);
        }
        assert(numbers[found.len() as int] == longer[found.len() as int]);
        assert forall|i: int| index <= i < values.len() implies writes_number(
            values[i],
            #[trigger] numbers[found.len() + i - index],
        ) by {
            if i > index {
                assert(writes_number(values[i], numbers[longer.len() + i - (index + 1)]));
            }
        }
    }
}

proof fn lemma_color(rest: Seq<char>, record: Seq<char>)
    ensures
        color_in(rest, record) matches Ok(color) ==> writes_color(rest, color),
{
    if color_in(rest, record) is Ok {
        let values = words(rest);
        lemma_numbers(values, record, 0, Seq::empty());
        let numbers = numbers_from(values, record, 0, Seq::empty())->Ok_0;
        assert(writes_number(values[0], numbers[Seq::<Float32>::empty().len() + 0 - 0]));
        assert(writes_number(values[1], numbers[Seq::<Float32>::empty().len() + 1 - 0]));
        assert(writes_number(values[2], numbers[Seq::<Float32>::empty().len() + 2 - 0]));
    }
}

proof fn lemma_record_names()
    ensures
        "newmtl"@.len() == 6,
        "Ka"@ =~= seq!['K', 'a'],
        "Kd"@ =~= seq!['K', 'd'],
        "Ks"@ =~= seq!['K', 's'],
        "Ns"@ =~= seq!['N', 's'],
        "d"@ =~= seq!['d'],
        "Tr"@ =~= seq!['T', 'r'],
        "map_Kd"@ =~= seq!['m', 'a', 'p', '_', 'K', 'd'],
        "map_Kd"@ != "newmtl"@,
        "bump"@.len() == 4,
        "map_bump"@.len() == 8,
{
    reveal_strlit("newmtl");
    reveal_strlit("Ka");
    reveal_strlit("Kd");
    reveal_strlit("Ks");
    reveal_strlit("Ns");
    reveal_strlit("d");
    reveal_strlit("Tr");
    reveal_strlit("map_Kd");
    reveal_strlit("bump");
    reveal_strlit("map_bump");
    assert("map_Kd"@[0] == 'm');
    assert("newmtl"@[0] == 'n');
}

/// A color record that is accepted sets the color it is named after, to the three numbers that it
/// writes, and nothing else: `Ka` the ambient, `Kd` the diffuse and `Ks` the specular one.
pub proof fn law_color_records_set_their_color(progress: Progress, content: Seq<char>, line: int)
    requires
        content.len() > 0,
        after_line(progress, content, line) is Ok,
        progress.current is Some,
    ensures
        ({
            let next = after_line(progress, content, line)->Ok_0;
            let record = record_name(content);
            let before = progress.current->Some_0;
            let after = next.current->Some_0;
            let rest = record_rest(content);
            &&& record == "Ka"@ ==> next.done == progress.done && next.current is Some
                && writes_color(rest, after.ambient) && after == (MtlModel {
                ambient: after.ambient,
                ..before
            })
            &&& record == "Kd"@ ==> next.done == progress.done && next.current is Some
                && writes_color(rest, after.diffuse) && after == (MtlModel {
                diffuse: after.diffuse,
                ..before
            })
            &&& record == "Ks"@ ==> next.done == progress.done && next.current is Some
                && writes_color(rest, after.specular) && after == (MtlModel {
                specular: after.specular,
                ..before
            })
        }),
{
    lemma_record_names();
    lemma_color(record_rest(content), record_name(content));
}

/// A number record that is accepted sets the property it is named after and nothing else: `Ns` the
/// shininess, to the number that it writes, `d` the opacity, to the number moved between nothing and
/// one, and `Tr` the opacity too, to what the number leaves of one.
pub proof fn law_number_records_set_their_property(
    progress: Progress,
    content: Seq<char>,
    line: int,
)
    requires
        content.len() > 0,
        after_line(progress, content, line) is Ok,
        progress.current is Some,
    ensures
        ({
            let next = after_line(progress, content, line)->Ok_0;
            let record = record_name(content);
            let before = progress.current->Some_0;
            let after = next.current->Some_0;
            let rest = record_rest(content);
            let value = reading_value(single_reading(rest));
            &&& record == "Ns"@ ==> next.current is Some && writes_number(rest, after.shininess)
                && after == (MtlModel { shininess: after.shininess, ..before })
            &&& record == "d"@ ==> next.current is Some && writes_number(rest, value) && after.alpha
                == value.clamped_to_unit() && after == (MtlModel { alpha: after.alpha, ..before })
            &&& record == "Tr"@ ==> next.current is Some && writes_number(rest, value)
                && after.alpha == value.complement() && after == (MtlModel {
                alpha: after.alpha,
                ..before
            })
        }),
{
    lemma_record_names();
}

/// A map record that is accepted names the picture of the property that it is named after, on its
/// own line, and changes nothing else.
pub proof fn law_map_records_name_their_picture(progress: Progress, content: Seq<char>, line: int)
    requires
        content.len() > 0,
        after_line(progress, content, line) is Ok,
        progress.current is Some,
    ensures
        ({
            let next = after_line(progress, content, line)->Ok_0;
            let record = record_name(content);
            let before = progress.current->Some_0;
            let after = next.current->Some_0;
            let path = map_path(record_rest(content), record);
            &&& record == "map_Kd"@ ==> next.current is Some && path is Ok && after == (MtlModel {
                map_kd: Some(path->Ok_0),
                map_kd_line: line,
                ..before
            })
            &&& record == "map_bump"@ || record == "bump"@ ==> next.current is Some && path is Ok
                && after == (MtlModel {
                map_bump: Some(path->Ok_0),
                map_bump_line: line,
                ..before
            })
        }),
{
    lemma_record_names();
    assert(is_material_record(record_name(content)) ==> record_name(content) != "newmtl"@);
}

} // verus!
