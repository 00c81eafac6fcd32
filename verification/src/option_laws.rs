//! Which option of the command line sets which argument.

use crate::demo::{args_from, size_in, ArgsModel};
use crate::records::{reading_value, single_reading, unsigned_number};
use vstd::prelude::*;

verus! {

proof fn lemma_option_names()
    ensures
        "--ssaa"@ =~= seq!['-', '-', 's', 's', 'a', 'a'],
        "--bloom"@ =~= seq!['-', '-', 'b', 'l', 'o', 'o', 'm'],
        "--fxaa"@ =~= seq!['-', '-', 'f', 'x', 'a', 'a'],
        "--vignette"@ =~= seq!['-', '-', 'v', 'i', 'g', 'n', 'e', 't', 't', 'e'],
        "--ssao"@ =~= seq!['-', '-', 's', 's', 'a', 'o'],
        "--hdr"@ =~= seq!['-', '-', 'h', 'd', 'r'],
        "--ibl"@ =~= seq!['-', '-', 'i', 'b', 'l'],
        "--frames"@ =~= seq!['-', '-', 'f', 'r', 'a', 'm', 'e', 's'],
        "--size"@ =~= seq!['-', '-', 's', 'i', 'z', 'e'],
        "--screenshot"@.len() == 12,
        "--exposure"@ =~= seq!['-', '-', 'e', 'x', 'p', 'o', 's', 'u', 'r', 'e'],
{
    reveal_strlit("--ssaa");
    reveal_strlit("--bloom");
    reveal_strlit("--fxaa");
    reveal_strlit("--vignette");
    reveal_strlit("--ssao");
    reveal_strlit("--hdr");
    reveal_strlit("--ibl");
    reveal_strlit("--frames");
    reveal_strlit("--size");
    reveal_strlit("--screenshot");
    reveal_strlit("--exposure");
}

/// The options differ from each other.
proof fn lemma_options_differ(argument: Seq<char>)
    ensures
        argument == "--ssaa"@ ==> argument[2] == 's' && argument[5] == 'a' && argument.len() == 6,
        argument == "--ssao"@ ==> argument[2] == 's' && argument[5] == 'o' && argument.len() == 6,
        argument == "--size"@ ==> argument[2] == 's' && argument[5] == 'e' && argument.len() == 6,
        argument == "--fxaa"@ ==> argument[2] == 'f' && argument.len() == 6,
        argument == "--bloom"@ ==> argument.len() == 7,
        argument == "--vignette"@ ==> argument[2] == 'v' && argument.len() == 10,
        argument == "--exposure"@ ==> argument[2] == 'e' && argument.len() == 10,
        argument == "--hdr"@ ==> argument[2] == 'h' && argument.len() == 5,
        argument == "--ibl"@ ==> argument[2] == 'i' && argument.len() == 5,
        argument == "--frames"@ ==> argument.len() == 8,
        argument == "--screenshot"@ ==> argument.len() == 12,
{
    lemma_option_names();
}

/// An option without a value switches on the effect it is named after and nothing else, and the
/// rest of the line is read as before.
pub proof fn law_switches_turn_on_their_effect(list: Seq<Seq<char>>, index: int, args: ArgsModel)
    requires
        0 <= index < list.len(),
    ensures
        list[index] == "--ssaa"@ ==> args_from(list, index, args) == args_from(
            list,
            index + 1,
            ArgsModel { ssaa: true, ..args },
        ),
        list[index] == "--bloom"@ ==> args_from(list, index, args) == args_from(
            list,
            index + 1,
            ArgsModel { bloom: true, ..args },
        ),
        list[index] == "--fxaa"@ ==> args_from(list, index, args) == args_from(
            list,
            index + 1,
            ArgsModel { fxaa: true, ..args },
        ),
        list[index] == "--vignette"@ ==> args_from(list, index, args) == args_from(
            list,
            index + 1,
            ArgsModel { vignette: true, ..args },
        ),
        list[index] == "--ssao"@ ==> args_from(list, index, args) == args_from(
            list,
            index + 1,
            ArgsModel { ssao: true, ..args },
        ),
        list[index] == "--hdr"@ ==> args_from(list, index, args) == args_from(
            list,
            index + 1,
            ArgsModel { hdr: true, ..args },
        ),
        list[index] == "--ibl"@ ==> args_from(list, index, args) == args_from(
            list,
            index + 1,
            ArgsModel { ibl: true, ..args },
        ),
{
    lemma_options_differ(list[index]);
}

/// An option with a value sets the argument it is named after to what the next word writes, and
/// nothing else, and the rest of the line is read as before.
pub proof fn law_options_take_the_next_word(list: Seq<Seq<char>>, index: int, args: ArgsModel)
    requires
        0 <= index < list.len() - 1,
    ensures
        ({
            let value = list[index + 1];
            &&& list[index] == "--screenshot"@ ==> args_from(list, index, args) == args_from(
                list,
                index + 2,
                ArgsModel { screenshot: Some(value), ..args },
            )
            &&& list[index] == "--frames"@ ==> (unsigned_number(value, usize::MAX as nat) matches Some(
                frames,
            ) ==> args_from(list, index, args) == args_from(
                list,
                index + 2,
                ArgsModel { frames: Some(frames as usize), ..args },
            ))
            &&& list[index] == "--size"@ ==> (size_in(value) matches Ok(size) ==> args_from(
                list,
                index,
                args,
            ) == args_from(list, index + 2, ArgsModel { size: Some(size), ..args }))
            &&& list[index] == "--exposure"@ && !(single_reading(value) is Invalid) ==> args_from(
                list,
                index,
                args,
            ) == args_from(
                list,
                index + 2,
                ArgsModel { exposure: reading_value(single_reading(value)), ..args },
            )
        }),
{
    lemma_options_differ(list[index]);
}

} // verus!
