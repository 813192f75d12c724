//! What the user is told and asked before a series is applied.

use vstd::prelude::*;

use crate::message::Message;
use crate::patch::{intro_text, subject_lines, warning_text};
use crate::text::{decimal, digits_value, is_white, trim};
use crate::text_laws::law_trimming_takes_off_white_space;
use crate::ui::zero_padded;
use crate::ui_laws::law_padded_numbers_read_back;

verus! {

/// What is about to be applied is named patch by patch, each on a line of its
/// own, in the order in which it is applied.
pub proof fn law_patches_are_named_line_by_line(a: Seq<Message>, mail: Message, b: Seq<Message>)
    ensures
        subject_lines(a + seq![mail] + b) == subject_lines(a) + (seq![' ', ' '] + mail.subject@
            + seq!['\n']) + subject_lines(b),
        subject_lines(Seq::<Message>::empty()) == Seq::<char>::empty(),
    decreases b.len(),
{
    let all = a + seq![mail] + b;
    if b.len() == 0 {
        reveal_strlit("  ");
        reveal_strlit("\n");
        assert("  "@ =~= seq![' ', ' ']);
        assert("\n"@ =~= seq!['\n']);
        assert(all.drop_last() =~= a);
        assert(all.last() == mail);
        let line = seq![' ', ' '] + mail.subject@ + seq!['\n'];
        assert(subject_lines(all) =~= subject_lines(a) + line + Seq::<char>::empty());
        assert(subject_lines(b) == Seq::<char>::empty());
    } else {
        assert(all.drop_last() =~= a + seq![mail] + b.drop_last());
        assert(all.last() == b.last());
        law_patches_are_named_line_by_line(a, mail, b.drop_last());
        let line = seq![' ', ' '] + mail.subject@ + seq!['\n'];
        let head = subject_lines(a) + line;
        let tail = subject_lines(b.drop_last());
        assert(head + tail + "  "@ + b.last().subject@ + "\n"@ =~= head + (tail + "  "@
            + b.last().subject@ + "\n"@));
    }
}

/// Before anything is applied, the repository is named, and then the patches.
pub proof fn law_the_repository_is_named_first(repo: Seq<char>, patches: Seq<Message>)
    ensures
        ({
            let n = repo.len() as int;
            let intro = intro_text(repo, patches);
            &&& intro.subrange(13, 13 + n) == repo
            &&& intro.subrange(13 + n, 16 + n) == seq![':', '\n', '\n']
            &&& intro.skip(16 + n) == subject_lines(patches)
        }),
{
    reveal_strlit("\nApplying to ");
    reveal_strlit(":\n\n");
    let n = repo.len() as int;
    let intro = intro_text(repo, patches);
    assert(intro.subrange(13, 13 + n) =~= repo);
    assert(intro.subrange(13 + n, 16 + n) =~= seq![':', '\n', '\n']);
    assert(intro.skip(16 + n) =~= subject_lines(patches));
}

/// The warning tells first how many patches there should be, and then how many
/// there are.
pub proof fn law_the_warning_tells_both_numbers(expected: nat, found: nat)
    ensures
        ({
            let e = decimal(expected).len() as int;
            let f = decimal(found).len() as int;
            let text = warning_text(expected, found);
            &&& text.subrange(26, 26 + e) == decimal(expected)
            &&& text.subrange(45 + e, 45 + e + f) == decimal(found)
            &&& text[25] == ' ' && text[26 + e] == ' ' && text[44 + e] == ' ' && text[45 + e + f]
                == ' '
        }),
{
    reveal_strlit("\nWarning: the series says ");
    reveal_strlit(" patches, but only ");
    reveal_strlit(" were found in the mirror.\n");
    let e = decimal(expected).len() as int;
    let f = decimal(found).len() as int;
    let text = warning_text(expected, found);
    assert(text.subrange(26, 26 + e) =~= decimal(expected));
    assert(text.subrange(45 + e, 45 + e + f) =~= decimal(found));
}

/// The files of a series are numbered from 1, in four digits at least, so that
/// their names are in the order of the patches up to the first ten thousand.
pub proof fn law_patch_files_are_numbered(i: nat, j: nat)
    requires
        i < j < 9999,
    ensures
        digits_value(zero_padded(i + 1, 4)) == i + 1,
        zero_padded(i + 1, 4).len() == 4 && zero_padded(j + 1, 4).len() == 4,
        zero_padded(i + 1, 4) != zero_padded(j + 1, 4),
{
    reveal_with_fuel(decimal, 5);
    law_padded_numbers_read_back(i + 1, 4);
    law_padded_numbers_read_back(j + 1, 4);
}

/// A typed answer agrees whatever white space is around its letter, and an
/// empty one does not.
pub proof fn law_answers_are_trimmed(before: Seq<char>, letter: char, after: Seq<char>)
    requires
        forall|i: int| 0 <= i < before.len() ==> is_white(#[trigger] before[i]),
        forall|i: int| 0 <= i < after.len() ==> is_white(#[trigger] after[i]),
        !is_white(letter),
    ensures
        trim(before + seq![letter] + after) == "y"@ <==> letter == 'y',
        trim(before + seq![letter] + after) == "Y"@ <==> letter == 'Y',
        trim(before) != "y"@ && trim(before) != "Y"@,
{
    reveal_strlit("y");
    reveal_strlit("Y");
    law_trimming_takes_off_white_space(before, seq![letter], after);
    law_trimming_takes_off_white_space(before, seq![], seq![]);
    assert(before + Seq::<char>::empty() + Seq::<char>::empty() =~= before);
    assert("y"@ =~= seq!['y']);
    assert("Y"@ =~= seq!['Y']);
    assert(seq![letter][0] == letter);
}

} // verus!
