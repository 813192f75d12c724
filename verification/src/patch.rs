//! Applying a patch series: hand the mails to `git am` in the user's own tree
//! and let git do the applying. What is decided on the way stands here.

use vstd::prelude::*;

use crate::message::Message;
use crate::text::{decimal, push_decimal, texts, trim};
use crate::tui::confirm_line;
use crate::ui::{push_zero_padded, zero_padded};

verus! {

/// What applying a series begins with.
#[derive(Debug)]
pub struct ApplyPlan {
    /// What to tell the user first.
    pub intro: String,
    /// How many patches the series says it has.
    pub expected: usize,
    /// What to warn of before asking whether to apply the series anyway.
    pub warning: Option<String>,
}

/// How many patches a series says it has: the most that any of its mails
/// says, and one where none says anything.
pub open spec fn expected_of(patches: Seq<Message>) -> nat
    decreases patches.len(),
{
    if patches.len() == 0 {
        1
    } else {
        let before = expected_of(patches.drop_last());
        match patches.last().patch_tag {
            None => before,
            Some(tag) => if tagged(patches.drop_last()) && before > tag.total {
                before
            } else {
                tag.total as nat
            },
        }
    }
}

/// Some mail says how many patches its series has.
pub open spec fn tagged(patches: Seq<Message>) -> bool {
    exists|i: int| 0 <= i < patches.len() && (#[trigger] patches[i]).patch_tag is Some
}

/// How many patches a series says it has is said by one of its mails, and none
/// says more; a series of which no mail says anything has one.
pub proof fn law_expected_is_the_most(patches: Seq<Message>)
    ensures
        !tagged(patches) ==> expected_of(patches) == 1,
        tagged(patches) ==> exists|i: int|
            0 <= i < patches.len() && (#[trigger] patches[i]).patch_tag is Some
                && patches[i].patch_tag.unwrap().total == expected_of(patches),
        forall|i: int|
            0 <= i < patches.len() && (#[trigger] patches[i]).patch_tag is Some
                ==> patches[i].patch_tag.unwrap().total <= expected_of(patches),
    decreases patches.len(),
{
    if patches.len() > 0 {
        let init = patches.drop_last();
        law_expected_is_the_most(init);
        let n = init.len() as int;
        if patches.last().patch_tag is Some {
            assert(patches[n].patch_tag is Some);
        }
        if tagged(init) {
            let i = choose|i: int|
                0 <= i < init.len() && (#[trigger] init[i]).patch_tag is Some
                    && init[i].patch_tag.unwrap().total == expected_of(init);
            assert(patches[i] == init[i]);
        }
        if tagged(patches) && patches.last().patch_tag is None {
            let i = choose|i: int|
                0 <= i < patches.len() && (#[trigger] patches[i]).patch_tag is Some;
            assert(init[i] == patches[i]);
        }
        assert forall|i: int|
            0 <= i < patches.len() && (
            #[trigger] patches[i]).patch_tag is Some implies patches[i].patch_tag.unwrap().total
            <= expected_of(patches) by {
            if i < n {
                assert(init[i] == patches[i]);
                assert(tagged(init));
            }
        }
    }
}

/// The lines that name what is about to be applied.
pub open spec fn subject_lines(patches: Seq<Message>) -> Seq<char>
    decreases patches.len(),
{
    if patches.len() == 0 {
        seq![]
    } else {
        subject_lines(patches.drop_last()) + "  "@ + patches.last().subject@ + "\n"@
    }
}

/// What the user is told first.
pub open spec fn intro_text(repo: Seq<char>, patches: Seq<Message>) -> Seq<char> {
    "\nApplying to "@ + repo + ":\n\n"@ + subject_lines(patches)
}

/// The warning of a series with patches missing.
pub open spec fn warning_text(expected: nat, found: nat) -> Seq<char> {
    "\nWarning: the series says "@ + decimal(expected) + " patches, but only "@ + decimal(found)
        + " were found in the mirror.\n"@
}

/// Plans to apply `patches` in `repo`. A series without patches, or a
/// directory that is no repository, is refused; a series whose number of
/// patches is not what it says is only applied once the user agrees, since a
/// half-applied series is the one outcome worth a question.
pub fn plan_apply(repo: &str, is_repo: bool, patches: &Vec<Message>) -> (r: Result<
    ApplyPlan,
    String,
>)
    ensures
        match r {
            Err(e) => {
                if patches@.len() == 0 {
                    e@ == "no patch mails found in this thread"@
                } else {
                    !is_repo && e@ == "not a git repository: "@ + repo@
                }
            },
            Ok(plan) => {
                &&& patches@.len() > 0
                &&& is_repo
                &&& plan.intro@ == intro_text(repo@, patches@)
                &&& plan.expected == expected_of(patches@)
                &&& match plan.warning {
                    None => patches@.len() == plan.expected,
                    Some(text) => patches@.len() != plan.expected && text@ == warning_text(
                        plan.expected as nat,
                        patches@.len(),
                    ),
                }
            },
        },
{
    if patches.len() == 0 {
        return Err("no patch mails found in this thread".to_string());
    }
    if !is_repo {
        return Err("not a git repository: ".to_string().concat(repo));
    }
    let mut intro = String::new();
    intro.append("\nApplying to ");
    intro.append(repo);
    intro.append(":\n\n");
    let ghost head = intro@;
    let mut expected: u32 = 1;
    let mut any = false;
    let mut i: usize = 0;
    assert(intro@ =~= head + subject_lines(patches@.take(0)));
    while i < patches.len()
        invariant
            i <= patches@.len(),
            intro@ == head + subject_lines(patches@.take(i as int)),
            expected == expected_of(patches@.take(i as int)),
            any == tagged(patches@.take(i as int)),
        decreases patches@.len() - i,
    {
        let ghost before = intro@;
        proof {
            let longer = patches@.take(i + 1);
            assert(longer.drop_last() =~= patches@.take(i as int));
            assert(longer.last() == patches@[i as int]);
            if tagged(patches@.take(i as int)) {
                let j = choose|j: int|
                    0 <= j < i && (#[trigger] patches@.take(i as int)[j]).patch_tag is Some;
                assert(longer[j].patch_tag is Some);
            }
            if tagged(longer) && patches@[i as int].patch_tag is None {
                let j = choose|j: int| 0 <= j < i + 1 && (#[trigger] longer[j]).patch_tag is Some;
                assert(patches@.take(i as int)[j].patch_tag is Some);
            }
            if patches@[i as int].patch_tag is Some {
                assert(longer[i as int].patch_tag is Some);
            }
        }
        intro.append("  ");
        intro.append(patches[i].subject.as_str());
        intro.append("\n");
        if let Some(tag) = patches[i].patch_tag {
            if !any || tag.total > expected {
                expected = tag.total;
            }
            any = true;
        }
        i += 1;
        assert(intro@ =~= head + subject_lines(patches@.take(i as int)));
    }
    assert(patches@.take(i as int) =~= patches@);
    assert(intro@ =~= intro_text(repo@, patches@));
    let expected = expected as usize;
    let warning = if patches.len() != expected {
        Some(warn(expected, patches.len()))
    } else {
        None
    };
    Ok(ApplyPlan { intro, expected, warning })
}

/// The warning of a series with patches missing.
fn warn(expected: usize, found: usize) -> (r: String)
    ensures
        r@ == warning_text(expected as nat, found as nat),
{
    let mut out = String::new();
    out.append("\nWarning: the series says ");
    push_decimal(&mut out, expected as u64);
    out.append(" patches, but only ");
    push_decimal(&mut out, found as u64);
    out.append(" were found in the mirror.\n");
    assert(out@ =~= warning_text(expected as nat, found as nat));
    out
}

/// What the user said to applying an incomplete series.
pub fn incomplete_answer(answer: &str) -> (r: Result<(), String>)
    ensures
        match r {
            Ok(()) => trim(answer@) == "y"@ || trim(answer@) == "Y"@,
            Err(e) => trim(answer@) != "y"@ && trim(answer@) != "Y"@ && e@
                == "aborted"@,
        },
{
    if confirm_line(answer) {
        Ok(())
    } else {
        Err("aborted".to_string())
    }
}

/// The name of the file for the mail at `i`. Each mail gets a file of its own:
/// `git am` splits a mailbox at lines that start with `From `, and a patch that
/// adds such a line would be split in the wrong place.
pub fn patch_file(i: usize) -> (r: String)
    requires
        i < usize::MAX,
    ensures
        r@ == zero_padded((i + 1) as nat, 4) + ".patch"@,
{
    let mut out = String::new();
    push_zero_padded(&mut out, (i + 1) as u64, 4);
    out.append(".patch");
    assert(out@ =~= zero_padded((i + 1) as nat, 4) + ".patch"@);
    out
}

/// The arguments with which git applies patch files in a repository.
pub fn am_args(repo: &str, files: &Vec<String>) -> (r: Vec<String>)
    ensures
        texts(r@) == seq!["-C"@, repo@, "am"@] + texts(files@),
{
    let mut r = vec!["-C".to_string(), repo.to_string(), "am".to_string()];
    let ghost head = seq!["-C"@, repo@, "am"@];
    let mut i: usize = 0;
    assert(texts(r@) =~= head + texts(files@.take(0)));
    while i < files.len()
        invariant
            i <= files@.len(),
            texts(r@) == head + texts(files@.take(i as int)),
        decreases files@.len() - i,
    {
        let ghost before = r@;
        r.push(files[i].clone());
        i += 1;
        assert(texts(r@) =~= texts(before).push(files@[i - 1]@));
        assert(texts(files@.take(i as int)) =~= texts(files@.take(i - 1)).push(files@[i - 1]@));
        assert(texts(r@) =~= head + texts(files@.take(i as int)));
    }
    assert(files@.take(i as int) =~= files@);
    r
}

/// The arguments with which git tells whether a directory is a repository.
pub fn probe_args(repo: &str) -> (r: Vec<String>)
    ensures
        texts(r@) == seq!["-C"@, repo@, "rev-parse"@, "--git-dir"@],
{
    let r = vec![
        "-C".to_string(),
        repo.to_string(),
        "rev-parse".to_string(),
        "--git-dir".to_string(),
    ];
    assert(texts(r@) =~= seq!["-C"@, repo@, "rev-parse"@, "--git-dir"@]);
    r
}

/// What came of applying the files.
pub fn am_outcome(repo: &str, success: bool) -> (r: Result<(), String>)
    ensures
        match r {
            Ok(()) => success,
            Err(e) => !success && e@ == "git am failed; the tree is mid-apply (git -C "@ + repo@
                + " am --abort to undo)"@,
        },
{
    if success {
        return Ok(());
    }
    let mut out = "git am failed; the tree is mid-apply (git -C ".to_string();
    out.append(repo);
    out.append(" am --abort to undo)");
    Err(out)
}

} // verus!
