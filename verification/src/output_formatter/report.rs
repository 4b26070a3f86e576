use vstd::prelude::*;
use vstd::string::StringExecFns;

use crate::models::{Diff, DiffView};

verus! {

/// The lines that name the paths of one kind of change: a blank line, the
/// heading, then each path after its mark. Nothing where there is no path.
pub open spec fn section_of(heading: Seq<char>, mark: Seq<char>, paths: Seq<Seq<char>>) -> Seq<
    Seq<char>,
> {
    if paths.len() == 0 {
        Seq::empty()
    } else {
        seq![Seq::<char>::empty(), heading] + Seq::new(paths.len(), |i: int| mark + paths[i])
    }
}

/// The lines that tell a reader what a diff found; `unchanged` is the one
/// line for a diff that found nothing.
pub open spec fn report_of(diff: DiffView, unchanged: Seq<char>) -> Seq<Seq<char>> {
    if diff.is_empty() {
        seq![unchanged]
    } else {
        seq!["Changes detected:"@] + section_of("Added files:"@, "  + "@, diff.added) + section_of(
            "Removed files:"@,
            "  - "@,
            diff.removed,
        ) + section_of("Modified files:"@, "  * "@, diff.modified)
    }
}

/// The first line of a comparison between two named record sets.
pub open spec fn comparison_heading(left: Seq<char>, right: Seq<char>) -> Seq<char> {
    "Comparing "@ + left + " with "@ + right
}

/// Appends the lines of one kind of change to `lines`.
fn push_section(lines: &mut Vec<String>, heading: &str, mark: &str, paths: &Vec<String>)
    ensures
        final(lines).deep_view() == old(lines).deep_view() + section_of(
            heading@,
            mark@,
            paths.deep_view(),
        ),
{
    let ghost start = lines.deep_view();
    let ghost all = paths.deep_view();
    if paths.is_empty() {
        assert(lines.deep_view() =~= start + section_of(heading@, mark@, all));
        return ;
    }
    lines.push(String::new());
    lines.push(String::from_str(heading));
    let ghost head = seq![Seq::<char>::empty(), heading@];
    assert(lines.deep_view() =~= start + head);
    let mut i: usize = 0;
    while i < paths.len()
        invariant
            i <= paths.len(),
            all == paths.deep_view(),
            head == seq![Seq::<char>::empty(), heading@],
            lines.deep_view() == start + head + Seq::new(i as nat, |k: int| mark@ + all[k]),
        decreases paths.len() - i,
    {
        let ghost earlier = lines.deep_view();
        let mut line = String::from_str(mark);
        line.append(paths[i].as_str());
        lines.push(line);
        assert(lines.deep_view() =~= earlier.push(mark@ + all[i as int]));
        assert(lines.deep_view() =~= start + head + Seq::new(
            (i + 1) as nat,
            |k: int| mark@ + all[k],
        ));
        i += 1;
    }
    assert(lines.deep_view() =~= start + section_of(heading@, mark@, all));
}

/// Writes a diff as lines for a reader: what was added, removed and
/// modified, each path on a line of its own, or `unchanged` alone where
/// nothing changed.
pub fn diff_report(diff: &Diff, unchanged: &str) -> (lines: Vec<String>)
    ensures
        lines.deep_view() == report_of(diff@, unchanged@),
{
    let mut lines: Vec<String> = Vec::new();
    if diff.is_empty() {
        lines.push(String::from_str(unchanged));
        assert(lines.deep_view() =~= seq![unchanged@]);
        return lines;
    }
    lines.push(String::from_str("Changes detected:"));
    assert(lines.deep_view() =~= seq!["Changes detected:"@]);
    push_section(&mut lines, "Added files:", "  + ", &diff.added);
    push_section(&mut lines, "Removed files:", "  - ", &diff.removed);
    push_section(&mut lines, "Modified files:", "  * ", &diff.modified);
    lines
}

/// The line that says which two record sets are compared.
pub fn comparison_line(left: &str, right: &str) -> (line: String)
    ensures
        line@ == comparison_heading(left@, right@),
{
    let mut line = String::from_str("Comparing ");
    line.append(left);
    line.append(" with ");
    line.append(right);
    line
}

} // verus!
