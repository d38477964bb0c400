//! The fragments of the data sources. Each function here makes, from one
//! sample of its source, the update that the source sends on that tick.

use crate::format::{
    apply_sequence, lemma_share_of_zero, lemma_styled_by_complete, lemma_styled_complete,
    styled_by, Color, Format, Fraction,
};
use crate::line::{Block, ThreadResponse};
use crate::outside::{byte_size_text, format_byte_size, format_time, formatted_time};
use crate::markup::{
    complete, lemma_complete_concat, lemma_plain_concat, lemma_scan_one, plain, well_formed,
    Mode,
};
use crate::text::{decimal, decimal_text, lemma_decimal_digits};
use vstd::prelude::*;

verus! {

/// A workspace as the window manager reports it.
#[derive(Debug, PartialEq, Eq)]
pub struct Workspace {
    pub name: String,
    /// The physical output that shows the workspace.
    pub output: String,
    /// Whether the workspace is the one that its output shows right now.
    pub visible: bool,
}

/// The mathematical content of a `Workspace`.
pub ghost struct WorkspaceView {
    pub name: Seq<char>,
    pub output: Seq<char>,
    pub visible: bool,
}

impl View for Workspace {
    type V = WorkspaceView;

    open spec fn view(&self) -> WorkspaceView {
        WorkspaceView { name: self.name@, output: self.output@, visible: self.visible }
    }
}

/// The outputs that occur in `outputs`, each once, in the order in which they
/// first occur.
pub open spec fn distinct(outputs: Seq<Seq<char>>) -> Seq<Seq<char>>
    decreases outputs.len(),
{
    if outputs.len() == 0 {
        outputs
    } else {
        let before = distinct(outputs.drop_last());
        if before.contains(outputs.last()) {
            before
        } else {
            before.push(outputs.last())
        }
    }
}

/// The workspaces among `workspaces` that are on `output`, in their order.
pub open spec fn shown_on(workspaces: Seq<WorkspaceView>, output: Seq<char>) -> Seq<WorkspaceView>
    decreases workspaces.len(),
{
    if workspaces.len() == 0 {
        workspaces
    } else {
        let before = shown_on(workspaces.drop_last(), output);
        if workspaces.last().output == output {
            before.push(workspaces.last())
        } else {
            before
        }
    }
}

/// The workspaces of each of `outputs` in turn.
pub open spec fn grouped_by(workspaces: Seq<WorkspaceView>, outputs: Seq<Seq<char>>) -> Seq<
    WorkspaceView,
>
    decreases outputs.len(),
{
    if outputs.len() == 0 {
        Seq::empty()
    } else {
        grouped_by(workspaces, outputs.drop_last()) + shown_on(workspaces, outputs.last())
    }
}

/// The outputs of the workspaces, in the order of the list.
pub open spec fn outputs(workspaces: Seq<WorkspaceView>) -> Seq<Seq<char>> {
    workspaces.map_values(|w: WorkspaceView| w.output)
}

/// The workspaces grouped by output: the outputs in the order in which the
/// list first names them, the workspaces of one output in the order of the
/// list.
pub open spec fn grouped(workspaces: Seq<WorkspaceView>) -> Seq<WorkspaceView> {
    grouped_by(workspaces, distinct(outputs(workspaces)))
}

/// `distinct` keeps every text of the list and none twice.
pub proof fn lemma_distinct(list: Seq<Seq<char>>)
    ensures
        distinct(list).no_duplicates(),
        forall|t: Seq<char>| distinct(list).contains(t) <==> list.contains(t),
    decreases list.len(),
{
    if list.len() > 0 {
        let init = list.drop_last();
        let before = distinct(init);
        lemma_distinct(init);
        assert forall|t: Seq<char>| distinct(list).contains(t) <==> list.contains(t) by {
            if list.contains(t) {
                let i = choose|i: int| 0 <= i < list.len() && list[i] == t;
                if i < list.len() - 1 {
                    assert(init[i] == t);
                    assert(init.contains(t));
                    assert(before.contains(t));
                    let j = choose|j: int| 0 <= j < before.len() && before[j] == t;
                    assert(distinct(list)[j] == t);
                } else if !before.contains(t) {
                    assert(distinct(list)[before.len() as int] == t);
                }
            }
            if distinct(list).contains(t) {
                let j = choose|j: int| 0 <= j < distinct(list).len() && distinct(list)[j] == t;
                if j < before.len() {
                    assert(before[j] == t);
                    assert(before.contains(t));
                    assert(init.contains(t));
                    let i = choose|i: int| 0 <= i < init.len() && init[i] == t;
                    assert(list[i] == t);
                } else {
                    assert(list[list.len() - 1] == t);
                }
            }
        }
    }
}

proof fn lemma_shown_on_count(workspaces: Seq<WorkspaceView>, output: Seq<char>, w: WorkspaceView)
    ensures
        shown_on(workspaces, output).to_multiset().count(w) == if w.output == output {
            workspaces.to_multiset().count(w)
        } else {
            0
        },
    decreases workspaces.len(),
{
    broadcast use vstd::multiset::group_multiset_axioms;

    if workspaces.len() == 0 {
        vstd::seq_lib::to_multiset_contains(workspaces, w);
    } else {
        let init = workspaces.drop_last();
        let last = workspaces.last();
        lemma_shown_on_count(init, output, w);
        assert(init.push(last) =~= workspaces);
        vstd::seq_lib::to_multiset_build(init, last);
        if last.output == output {
            vstd::seq_lib::to_multiset_build(shown_on(init, output), last);
        }
    }
}

proof fn lemma_grouped_by_count(
    workspaces: Seq<WorkspaceView>,
    list: Seq<Seq<char>>,
    w: WorkspaceView,
)
    requires
        list.no_duplicates(),
    ensures
        grouped_by(workspaces, list).to_multiset().count(w) == if list.contains(w.output) {
            workspaces.to_multiset().count(w)
        } else {
            0
        },
    decreases list.len(),
{
    broadcast use vstd::multiset::group_multiset_axioms;

    if list.len() == 0 {
        vstd::seq_lib::to_multiset_contains(grouped_by(workspaces, list), w);
    } else {
        let init = list.drop_last();
        lemma_grouped_by_count(workspaces, init, w);
        lemma_shown_on_count(workspaces, list.last(), w);
        vstd::seq_lib::lemma_multiset_commutative(
            grouped_by(workspaces, init),
            shown_on(workspaces, list.last()),
        );
        if init.contains(w.output) {
            let i = choose|i: int| 0 <= i < init.len() && init[i] == w.output;
            assert(list[i] == w.output);
            assert(list.contains(w.output));
            assert(list.last() != w.output);
        } else if list.last() == w.output {
            assert(list[list.len() - 1] == w.output);
        } else if list.contains(w.output) {
            let i = choose|i: int| 0 <= i < list.len() && list[i] == w.output;
            assert(init[i] == w.output);
        }
    }
}

/// Grouping moves workspaces and neither drops nor repeats one: each is in
/// the grouped list as often as in the list itself.
pub proof fn lemma_grouped_permutes(workspaces: Seq<WorkspaceView>)
    ensures
        grouped(workspaces).to_multiset() == workspaces.to_multiset(),
{
    let list = distinct(outputs(workspaces));
    lemma_distinct(outputs(workspaces));
    assert forall|w: WorkspaceView|
        grouped(workspaces).to_multiset().count(w) == workspaces.to_multiset().count(w) by {
        lemma_grouped_by_count(workspaces, list, w);
        vstd::seq_lib::to_multiset_contains(workspaces, w);
        if workspaces.contains(w) {
            let i = choose|i: int| 0 <= i < workspaces.len() && workspaces[i] == w;
            assert(outputs(workspaces)[i] == w.output);
            assert(outputs(workspaces).contains(w.output));
        }
    }
    assert(grouped(workspaces).to_multiset() =~= workspaces.to_multiset());
}

/// The fragment of one workspace: its name between two spaces, black on green
/// if it is visible, blue on black if it is not.
pub open spec fn workspace_markup(w: WorkspaceView) -> Seq<char> {
    styled_by(
        " "@ + w.name + " "@,
        seq![
            Format::Foreground(
                if w.visible {
                    Color::Black
                } else {
                    Color::Blue
                },
            ),
            Format::Background(
                if w.visible {
                    Color::Green
                } else {
                    Color::Black
                },
            ),
        ],
    )
}

/// The fragments of the workspaces, one after the other.
pub open spec fn workspaces_markup(workspaces: Seq<WorkspaceView>) -> Seq<char>
    decreases workspaces.len(),
{
    if workspaces.len() == 0 {
        Seq::empty()
    } else {
        workspaces_markup(workspaces.drop_last()) + workspace_markup(workspaces.last())
    }
}

/// The fragments of workspaces with plain names are complete markup.
pub proof fn lemma_workspaces_are_markup(workspaces: Seq<WorkspaceView>)
    requires
        forall|i: int| 0 <= i < workspaces.len() ==> plain(#[trigger] workspaces[i].name),
    ensures
        complete(workspaces_markup(workspaces)),
    decreases workspaces.len(),
{
    if workspaces.len() > 0 {
        let w = workspaces.last();
        let init = workspaces.drop_last();
        assert forall|i: int| 0 <= i < init.len() implies plain(#[trigger] init[i].name) by {
            assert(init[i] == workspaces[i]);
        }
        lemma_workspaces_are_markup(init);
        assert(plain(w.name)) by {
            assert(w == workspaces[workspaces.len() - 1]);
        }
        lemma_spaced_plain(w.name);
        lemma_styled_by_complete(
            " "@ + w.name + " "@,
            seq![
                Format::Foreground(
                    if w.visible {
                        Color::Black
                    } else {
                        Color::Blue
                    },
                ),
                Format::Background(
                    if w.visible {
                        Color::Green
                    } else {
                        Color::Black
                    },
                ),
            ],
        );
        lemma_complete_concat(workspaces_markup(init), workspace_markup(w));
    }
}

/// A plain text between two spaces is plain.
proof fn lemma_spaced_plain(t: Seq<char>)
    requires
        plain(t),
    ensures
        plain(" "@ + t + " "@),
{
    reveal_strlit(" ");
    lemma_plain_concat(" "@, t);
    lemma_plain_concat(" "@ + t, " "@);
}

/// The views of a list of workspaces.
pub open spec fn views(workspaces: Seq<Workspace>) -> Seq<WorkspaceView> {
    workspaces.map_values(|w: Workspace| w@)
}

/// Renders one workspace.
pub fn workspace_fragment(workspace: &Workspace) -> (text: String)
    ensures
        text@ == workspace_markup(workspace@),
{
    let mut label = String::from_str(" ");
    label.append(workspace.name.as_str());
    label.append(" ");
    let formatters = [
        Format::Foreground(
            if workspace.visible {
                Color::Black
            } else {
                Color::Blue
            },
        ),
        Format::Background(
            if workspace.visible {
                Color::Green
            } else {
                Color::Black
            },
        ),
    ];
    assert(formatters@ =~= seq![formatters@[0], formatters@[1]]);
    apply_sequence(label, formatters.as_slice())
}

/// The views of a list of texts.
pub open spec fn texts(list: Seq<String>) -> Seq<Seq<char>> {
    list.map_values(|t: String| t@)
}

/// The fragments of two lists of workspaces follow each other.
pub proof fn lemma_workspaces_markup_concat(a: Seq<WorkspaceView>, b: Seq<WorkspaceView>)
    ensures
        workspaces_markup(a + b) == workspaces_markup(a) + workspaces_markup(b),
    decreases b.len(),
{
    if b.len() == 0 {
        assert(a + b =~= a);
        assert(workspaces_markup(a) + workspaces_markup(b) =~= workspaces_markup(a));
    } else {
        lemma_workspaces_markup_concat(a, b.drop_last());
        assert((a + b).drop_last() =~= a + b.drop_last());
        assert((a + b).last() == b.last());
        assert(workspaces_markup(a + b) =~= workspaces_markup(a) + workspaces_markup(b));
    }
}

fn contains_text(list: &Vec<String>, text: &String) -> (found: bool)
    ensures
        found == texts(list@).contains(text@),
{
    let mut i: usize = 0;
    while i < list.len()
        invariant
            i <= list.len(),
            forall|k: int| 0 <= k < i ==> texts(list@)[k] != text@,
        decreases list.len() - i,
    {
        if list[i] == *text {
            assert(texts(list@)[i as int] == text@);
            return true;
        }
        i += 1;
    }
    false
}

/// The outputs that the workspaces are on, each once, in the order in which
/// the list first names them.
pub fn outputs_of(workspaces: &Vec<Workspace>) -> (seen: Vec<String>)
    ensures
        texts(seen@) == distinct(outputs(views(workspaces@))),
{
    let ghost all = outputs(views(workspaces@));
    let mut seen: Vec<String> = Vec::new();
    let mut i: usize = 0;
    assert(texts(seen@) =~= distinct(all.take(0)));
    while i < workspaces.len()
        invariant
            i <= workspaces.len(),
            all == outputs(views(workspaces@)),
            texts(seen@) == distinct(all.take(i as int)),
        decreases workspaces.len() - i,
    {
        proof {
            assert(all.take(i + 1).drop_last() =~= all.take(i as int));
            assert(all.take(i + 1).last() == workspaces@[i as int].output@);
        }
        if !contains_text(&seen, &workspaces[i].output) {
            let ghost before = texts(seen@);
            seen.push(workspaces[i].output.clone());
            assert(texts(seen@) =~= before.push(workspaces@[i as int].output@));
        }
        i += 1;
    }
    assert(all.take(i as int) =~= all);
    seen
}

/// The update of the workspace source: the fragments of all workspaces,
/// grouped by output, as one text under the first workspace group.
pub fn i3(workspaces: &Vec<Workspace>) -> (response: ThreadResponse)
    ensures
        response.block == Block::I3(0),
        response.msg@ == workspaces_markup(grouped(views(workspaces@))),
{
    let ghost all = views(workspaces@);
    let seen = outputs_of(workspaces);
    let mut msg = String::new();
    let mut a: usize = 0;
    while a < seen.len()
        invariant
            a <= seen.len(),
            all == views(workspaces@),
            msg@ == workspaces_markup(grouped_by(all, texts(seen@).take(a as int))),
        decreases seen.len() - a,
    {
        let ghost done = grouped_by(all, texts(seen@).take(a as int));
        let ghost output = seen@[a as int]@;
        let mut b: usize = 0;
        assert(msg@ + workspaces_markup(shown_on(all.take(0), output)) =~= msg@);
        while b < workspaces.len()
            invariant
                b <= workspaces.len(),
                a < seen.len(),
                all == views(workspaces@),
                output == seen@[a as int]@,
                msg@ == workspaces_markup(done) + workspaces_markup(
                    shown_on(all.take(b as int), output),
                ),
            decreases workspaces.len() - b,
        {
            proof {
                assert(all.take(b + 1).drop_last() =~= all.take(b as int));
                assert(all.take(b + 1).last() == workspaces@[b as int]@);
            }
            if workspaces[b].output == seen[a] {
                let piece = workspace_fragment(&workspaces[b]);
                msg.append(piece.as_str());
                proof {
                    let before = shown_on(all.take(b as int), output);
                    let w = workspaces@[b as int]@;
                    assert(shown_on(all.take(b + 1), output) == before.push(w));
                    assert(before.push(w).drop_last() =~= before);
                    assert(msg@ =~= workspaces_markup(done) + workspaces_markup(before.push(w)));
                }
            }
            b += 1;
        }
        proof {
            assert(all.take(b as int) =~= all);
            lemma_workspaces_markup_concat(done, shown_on(all, output));
            assert(texts(seen@).take(a + 1).drop_last() =~= texts(seen@).take(a as int));
            assert(texts(seen@).take(a + 1).last() == output);
        }
        a += 1;
    }
    assert(texts(seen@).take(a as int) =~= texts(seen@));
    ThreadResponse { block: Block::I3(0), msg }
}

/// The text of the calendar time `seconds`, written in `pattern`: what
/// `formatted_time` gives, and nothing where it gives none or where `seconds`
/// is too large to be a time.
pub open spec fn time_text(seconds: int, pattern: Seq<char>) -> Seq<char> {
    if i64::MIN <= seconds <= i64::MAX {
        match formatted_time(seconds as i64, pattern) {
            Some(text) => text,
            None => Seq::empty(),
        }
    } else {
        Seq::empty()
    }
}

/// The clock's fragment: the time, white on black.
pub open spec fn clock_markup(time: Seq<char>) -> Seq<char> {
    styled_by(time, seq![Format::Foreground(Color::White), Format::Background(Color::Black)])
}

/// The clock's fragment is complete markup where the time's text is plain.
pub proof fn lemma_clock_is_markup(time: Seq<char>)
    requires
        plain(time),
    ensures
        complete(clock_markup(time)),
{
    lemma_styled_by_complete(
        time,
        seq![Format::Foreground(Color::White), Format::Background(Color::Black)],
    );
}

/// Renders the clock from the time's text.
pub fn clock_fragment(time: String) -> (text: String)
    ensures
        text@ == clock_markup(time@),
{
    let formatters = [Format::Foreground(Color::White), Format::Background(Color::Black)];
    assert(formatters@ =~= seq![formatters@[0], formatters@[1]]);
    apply_sequence(time, formatters.as_slice())
}

/// The update of the clock. `now` is the local time in seconds since
/// 1970-01-01 00:00:00 of the local calendar; it is written as date and time
/// of day.
pub fn clock(now: i64) -> (response: ThreadResponse)
    ensures
        response.block == Block::Clock,
        response.msg@ == clock_markup(time_text(now as int, "%Y-%m-%d %H:%M:%S"@)),
{
    let time = match format_time(now, "%Y-%m-%d %H:%M:%S") {
        Some(text) => text,
        None => String::new(),
    };
    ThreadResponse { block: Block::Clock, msg: clock_fragment(time) }
}

/// One reading of the battery.
#[derive(Clone, Copy, Debug, PartialEq, Eq)]
pub struct Charge {
    /// The charge that is left, as a share of the full charge.
    pub level: Fraction,
    /// The seconds until the battery is empty, or full while it charges.
    pub remaining: u64,
}

impl Charge {
    /// The reading that stands in where the battery cannot be queried: no
    /// charge, no time left.
    pub open spec fn empty() -> Charge {
        Charge { level: Fraction { num: 0, den: 1 }, remaining: 0 }
    }
}

/// The colour behind the battery's fragment: green above 40 hundredths, orange
/// above 20, red from there down.
pub open spec fn level_color(level: Fraction) -> Color {
    if level.above(40) {
        Color::Green
    } else if level.above(20) {
        Color::Orange
    } else {
        Color::Red
    }
}

/// The battery's fragment: `>` on mains power and `<` off it, the charge in
/// whole hundredths, and the time of day at which the battery is done. The
/// text is a gauge of the charge: black on the level's colour up to the
/// charge's share of its characters, the two colours exchanged from there on.
pub open spec fn battery_markup(level: Fraction, charging: bool, done: Seq<char>) -> Seq<char> {
    styled_by(
        " "@ + (if charging {
            ">"@
        } else {
            "<"@
        }) + " "@ + decimal(level.hundredths()) + "% "@ + done + " "@,
        seq![
            Format::SwapAt(level),
            Format::Foreground(Color::Black),
            Format::Background(level_color(level)),
        ],
    )
}

/// What the battery source sends for a reading, the answer on mains power
/// and the local time `now`: a query that failed counts as no charge and no
/// time left, an answer that failed as battery power.
pub open spec fn battery_text(charge: Option<Charge>, on_ac: Option<bool>, now: i64) -> Seq<char> {
    let reading = match charge {
        Some(c) => c,
        None => Charge::empty(),
    };
    let charging = match on_ac {
        Some(b) => b,
        None => false,
    };
    battery_markup(reading.level, charging, time_text(now + reading.remaining, "%H:%M"@))
}

/// A battery that cannot be queried is drawn as an empty one that is done
/// now: zero hundredths, nothing of the text left unswapped, red behind it,
/// and the present time of day.
pub proof fn lemma_battery_query_failed(on_ac: Option<bool>, now: i64)
    ensures
        battery_text(None, on_ac, now) == battery_text(Some(Charge::empty()), on_ac, now),
        battery_text(None, on_ac, now) == battery_markup(
            Charge::empty().level,
            on_ac == Some(true),
            time_text(now as int, "%H:%M"@),
        ),
        Charge::empty().level.hundredths() == 0,
        decimal(Charge::empty().level.hundredths()) == seq!['0'],
        level_color(Charge::empty().level) == Color::Red,
        forall|len: nat| Charge::empty().level.share(len) == 0,
{
    assert forall|len: nat| Charge::empty().level.share(len) == 0 by {
        lemma_share_of_zero(Charge::empty().level, len);
    }
}

/// The battery's fragment is complete markup where the time's text is plain.
pub proof fn lemma_battery_is_markup(level: Fraction, charging: bool, done: Seq<char>)
    requires
        plain(done),
    ensures
        complete(battery_markup(level, charging, done)),
{
    reveal_strlit(" ");
    reveal_strlit(">");
    reveal_strlit("<");
    reveal_strlit("% ");
    let arrow = if charging {
        ">"@
    } else {
        "<"@
    };
    let number = decimal(level.hundredths());
    lemma_decimal_digits(level.hundredths());
    lemma_plain_concat(" "@, arrow);
    lemma_plain_concat(" "@ + arrow, " "@);
    lemma_plain_concat(" "@ + arrow + " "@, number);
    lemma_plain_concat(" "@ + arrow + " "@ + number, "% "@);
    lemma_plain_concat(" "@ + arrow + " "@ + number + "% "@, done);
    lemma_plain_concat(" "@ + arrow + " "@ + number + "% "@ + done, " "@);
    lemma_styled_by_complete(
        " "@ + arrow + " "@ + number + "% "@ + done + " "@,
        seq![
            Format::SwapAt(level),
            Format::Foreground(Color::Black),
            Format::Background(level_color(level)),
        ],
    );
}

/// Renders the battery from the charge, the power source and the text of the
/// time at which the battery is done.
pub fn battery_fragment(level: Fraction, charging: bool, done: &str) -> (text: String)
    ensures
        text@ == battery_markup(level, charging, done@),
{
    let mut label = String::from_str(" ");
    label.append(
        if charging {
            ">"
        } else {
            "<"
        },
    );
    label.append(" ");
    label.append(decimal_text(level.percent() as u64).as_str());
    label.append("% ");
    label.append(done);
    label.append(" ");
    let back = if level.is_above(40) {
        Color::Green
    } else if level.is_above(20) {
        Color::Orange
    } else {
        Color::Red
    };
    let formatters = [
        Format::SwapAt(level),
        Format::Foreground(Color::Black),
        Format::Background(back),
    ];
    assert(formatters@ =~= seq![formatters@[0], formatters@[1], formatters@[2]]);
    apply_sequence(label, formatters.as_slice())
}

/// The update of the battery. `charge` and `on_ac` are `None` where the
/// query failed; `now` is the local time in seconds since 1970-01-01 00:00:00
/// of the local calendar.
pub fn battery(charge: Option<Charge>, on_ac: Option<bool>, now: i64) -> (response: ThreadResponse)
    ensures
        response.block == Block::Battery,
        response.msg@ == battery_text(charge, on_ac, now),
{
    let reading = match charge {
        Some(c) => c,
        None => Charge { level: Fraction::new(0, 1), remaining: 0 },
    };
    let charging = match on_ac {
        Some(b) => b,
        None => false,
    };
    let done = match now.checked_add_unsigned(reading.remaining) {
        Some(end) => match format_time(end, "%H:%M") {
            Some(text) => text,
            None => String::new(),
        },
        None => String::new(),
    };
    ThreadResponse {
        block: Block::Battery,
        msg: battery_fragment(reading.level, charging, done.as_str()),
    }
}

/// One reading of the memory, in bytes.
#[derive(Clone, Copy, Debug, PartialEq, Eq)]
pub struct Memory {
    pub total: u64,
    pub free: u64,
}

impl Memory {
    /// The bytes in use: what is not free, and nothing where more is reported
    /// free than there is.
    pub open spec fn used(self) -> u64 {
        if self.free <= self.total {
            (self.total - self.free) as u64
        } else {
            0
        }
    }
}

/// The load averages over one, five and fifteen minutes, in tenths.
#[derive(Clone, Copy, Debug, PartialEq, Eq)]
pub struct Load {
    pub one: u32,
    pub five: u32,
    pub fifteen: u32,
}

/// The memory's fragment: used and total bytes in words, as a gauge of their
/// ratio, black on purple.
pub open spec fn memory_markup(
    used: u64,
    total: u64,
    used_text: Seq<char>,
    total_text: Seq<char>,
) -> Seq<char> {
    styled_by(
        " "@ + used_text + "/"@ + total_text + " "@,
        seq![
            Format::SwapAt(Fraction { num: used, den: total }),
            Format::Foreground(Color::Black),
            Format::Background(Color::Purple),
        ],
    )
}

/// A number of tenths with one digit behind the point.
pub open spec fn tenths(n: nat) -> Seq<char> {
    decimal(n / 10) + "."@ + decimal(n % 10)
}

/// The three load averages, a space between them.
pub open spec fn load_text(load: Load) -> Seq<char> {
    tenths(load.one as nat) + " "@ + tenths(load.five as nat) + " "@ + tenths(load.fifteen as nat)
}

/// The fragment of memory and load together: the memory's fragment, a space,
/// the load in blue, a space, all on black.
pub open spec fn cpu_markup(memory: Seq<char>, load: Seq<char>) -> Seq<char> {
    Format::Background(Color::Black).styled(
        memory + " "@ + Format::Foreground(Color::Blue).styled(load) + " "@,
    )
}

/// What the source of memory and load sends for its two readings: a reading
/// that failed leaves its part empty.
pub open spec fn cpu_text(memory: Option<Memory>, load: Option<Load>) -> Seq<char> {
    cpu_markup(
        match memory {
            Some(m) => memory_markup(
                m.used(),
                m.total,
                byte_size_text(m.used()),
                byte_size_text(m.total),
            ),
            None => Seq::empty(),
        },
        match load {
            Some(l) => load_text(l),
            None => Seq::empty(),
        },
    )
}

/// The memory's fragment is complete markup where the wording of the byte
/// counts is plain.
pub proof fn lemma_memory_is_markup(
    used: u64,
    total: u64,
    used_text: Seq<char>,
    total_text: Seq<char>,
)
    requires
        plain(used_text),
        plain(total_text),
    ensures
        complete(memory_markup(used, total, used_text, total_text)),
{
    reveal_strlit(" ");
    reveal_strlit("/");
    lemma_plain_concat(" "@, used_text);
    lemma_plain_concat(" "@ + used_text, "/"@);
    lemma_plain_concat(" "@ + used_text + "/"@, total_text);
    lemma_plain_concat(" "@ + used_text + "/"@ + total_text, " "@);
    lemma_styled_by_complete(
        " "@ + used_text + "/"@ + total_text + " "@,
        seq![
            Format::SwapAt(Fraction { num: used, den: total }),
            Format::Foreground(Color::Black),
            Format::Background(Color::Purple),
        ],
    );
}

/// The load averages are written as plain text.
pub proof fn lemma_load_is_plain(load: Load)
    ensures
        plain(load_text(load)),
{
    reveal_strlit(" ");
    lemma_tenths_plain(load.one as nat);
    lemma_tenths_plain(load.five as nat);
    lemma_tenths_plain(load.fifteen as nat);
    let one = tenths(load.one as nat);
    let five = tenths(load.five as nat);
    let fifteen = tenths(load.fifteen as nat);
    lemma_plain_concat(one, " "@);
    lemma_plain_concat(one + " "@, five);
    lemma_plain_concat(one + " "@ + five, " "@);
    lemma_plain_concat(one + " "@ + five + " "@, fifteen);
}

proof fn lemma_tenths_plain(n: nat)
    ensures
        plain(tenths(n)),
        tenths(n).len() > 0,
        tenths(n)[0] != '{',
        tenths(n).last() != '%',
{
    reveal_strlit(".");
    lemma_decimal_digits(n / 10);
    lemma_decimal_digits(n % 10);
    lemma_plain_concat(decimal(n / 10), "."@);
    lemma_plain_concat(decimal(n / 10) + "."@, decimal(n % 10));
}

/// The fragment of memory and load is complete markup where the memory's
/// part is, if the load's part is well-formed.
pub proof fn lemma_cpu_is_markup(memory: Seq<char>, load: Seq<char>)
    requires
        complete(memory),
        well_formed(load),
    ensures
        complete(cpu_markup(memory, load)),
{
    reveal_strlit(" ");
    let colored = Format::Foreground(Color::Blue).styled(load);
    lemma_styled_complete(Format::Foreground(Color::Blue), load);
    lemma_scan_one(Mode::Text, ' ');
    assert(" "@ =~= seq![' ']);
    lemma_complete_concat(memory, " "@);
    lemma_complete_concat(memory + " "@, colored);
    lemma_complete_concat(memory + " "@ + colored, " "@);
    lemma_styled_complete(Format::Background(Color::Black), memory + " "@ + colored + " "@);
}

/// Renders the memory gauge from the two byte counts and their wording.
pub fn memory_fragment(used: u64, total: u64, used_text: &str, total_text: &str) -> (text: String)
    ensures
        text@ == memory_markup(used, total, used_text@, total_text@),
{
    let mut label = String::from_str(" ");
    label.append(used_text);
    label.append("/");
    label.append(total_text);
    label.append(" ");
    let formatters = [
        Format::SwapAt(Fraction::new(used, total)),
        Format::Foreground(Color::Black),
        Format::Background(Color::Purple),
    ];
    assert(formatters@ =~= seq![formatters@[0], formatters@[1], formatters@[2]]);
    apply_sequence(label, formatters.as_slice())
}

fn append_tenths(text: &mut String, n: u32)
    ensures
        final(text)@ == old(text)@ + tenths(n as nat),
{
    let ghost before = text@;
    text.append(decimal_text((n / 10) as u64).as_str());
    text.append(".");
    text.append(decimal_text((n % 10) as u64).as_str());
    assert(text@ =~= before + tenths(n as nat));
}

/// Writes the load averages.
pub fn load_fragment(load: Load) -> (text: String)
    ensures
        text@ == load_text(load),
{
    let mut text = String::new();
    append_tenths(&mut text, load.one);
    text.append(" ");
    append_tenths(&mut text, load.five);
    text.append(" ");
    append_tenths(&mut text, load.fifteen);
    assert(text@ =~= load_text(load));
    text
}

/// Puts the fragments of memory and load together.
pub fn cpu_fragment(memory: &str, load: String) -> (text: String)
    ensures
        text@ == cpu_markup(memory@, load@),
{
    let mut label = String::from_str(memory);
    label.append(" ");
    label.append(Format::Foreground(Color::Blue).apply(load).as_str());
    label.append(" ");
    Format::Background(Color::Black).apply(label)
}

/// The update of memory and load. Each reading is `None` where its query
/// failed.
pub fn cpu(memory: Option<Memory>, load: Option<Load>) -> (response: ThreadResponse)
    ensures
        response.block == Block::Cpu,
        response.msg@ == cpu_text(memory, load),
{
    let memory_part = match memory {
        Some(m) => {
            let used = if m.free <= m.total {
                m.total - m.free
            } else {
                0
            };
            let used_text = format_byte_size(used);
            let total_text = format_byte_size(m.total);
            memory_fragment(used, m.total, used_text.as_str(), total_text.as_str())
        },
        None => String::new(),
    };
    let load_part = match load {
        Some(l) => load_fragment(l),
        None => String::new(),
    };
    ThreadResponse { block: Block::Cpu, msg: cpu_fragment(memory_part.as_str(), load_part) }
}

/// A mounted file system, sizes in bytes.
#[derive(Debug, PartialEq, Eq)]
pub struct Mount {
    pub mounted_on: String,
    pub total: u64,
    pub avail: u64,
}

/// The mathematical content of a `Mount`.
pub ghost struct MountView {
    pub mounted_on: Seq<char>,
    pub total: u64,
    pub avail: u64,
}

impl View for Mount {
    type V = MountView;

    open spec fn view(&self) -> MountView {
        MountView { mounted_on: self.mounted_on@, total: self.total, avail: self.avail }
    }
}

/// The size in bytes from which on a file system is listed.
pub const MIN_TOTAL: u64 = 4_000_000_000;

/// The views of a list of mounts.
pub open spec fn mount_views(mounts: Seq<Mount>) -> Seq<MountView> {
    mounts.map_values(|m: Mount| m@)
}

/// The entry of one file system: where it is mounted and the space that is
/// available on it.
pub open spec fn mount_markup(mounted_on: Seq<char>, avail_text: Seq<char>) -> Seq<char> {
    " "@ + mounted_on + ": "@ + avail_text + " "@
}

/// The entries of the file systems of at least `MIN_TOTAL` bytes, in the
/// order of the list.
pub open spec fn mounts_markup(mounts: Seq<MountView>) -> Seq<char>
    decreases mounts.len(),
{
    if mounts.len() == 0 {
        Seq::empty()
    } else {
        let m = mounts.last();
        mounts_markup(mounts.drop_last()) + (if m.total >= MIN_TOTAL {
            mount_markup(m.mounted_on, byte_size_text(m.avail))
        } else {
            Seq::empty()
        })
    }
}

/// What the disk source sends for a list of mounts: the entries in green; no
/// entry where the query failed.
pub open spec fn disk_text(mounts: Option<Seq<MountView>>) -> Seq<char> {
    Format::Foreground(Color::Green).styled(
        match mounts {
            Some(list) => mounts_markup(list),
            None => Seq::empty(),
        },
    )
}

/// The disks' fragment is complete markup, whatever the entries hold that is
/// well-formed.
pub proof fn lemma_disk_is_markup(entries: Seq<char>)
    requires
        well_formed(entries),
    ensures
        complete(Format::Foreground(Color::Green).styled(entries)),
{
    lemma_styled_complete(Format::Foreground(Color::Green), entries);
}

/// The entry of a file system is plain text where the mount point and the
/// wording of the space are.
pub proof fn lemma_mount_is_plain(mounted_on: Seq<char>, avail_text: Seq<char>)
    requires
        plain(mounted_on),
        plain(avail_text),
    ensures
        plain(mount_markup(mounted_on, avail_text)),
{
    reveal_strlit(" ");
    reveal_strlit(": ");
    lemma_plain_concat(" "@, mounted_on);
    lemma_plain_concat(" "@ + mounted_on, ": "@);
    lemma_plain_concat(" "@ + mounted_on + ": "@, avail_text);
    lemma_plain_concat(" "@ + mounted_on + ": "@ + avail_text, " "@);
}

/// Writes the entry of one file system from the wording of its space.
pub fn mount_fragment(mounted_on: &str, avail_text: &str) -> (text: String)
    ensures
        text@ == mount_markup(mounted_on@, avail_text@),
{
    let mut text = String::from_str(" ");
    text.append(mounted_on);
    text.append(": ");
    text.append(avail_text);
    text.append(" ");
    text
}

/// The update of the disks. `mounts` is `None` where the query failed.
pub fn disk(mounts: Option<&Vec<Mount>>) -> (response: ThreadResponse)
    ensures
        response.block == Block::Disk,
        response.msg@ == disk_text(
            match mounts {
                Some(list) => Some(mount_views(list@)),
                None => None,
            },
        ),
{
    let mut entries = String::new();
    if let Some(list) = mounts {
        let ghost all = mount_views(list@);
        let mut i: usize = 0;
        while i < list.len()
            invariant
                i <= list.len(),
                all == mount_views(list@),
                entries@ == mounts_markup(all.take(i as int)),
            decreases list.len() - i,
        {
            proof {
                assert(all.take(i + 1).drop_last() =~= all.take(i as int));
                assert(all.take(i + 1).last() == list@[i as int]@);
            }
            if list[i].total >= MIN_TOTAL {
                let avail_text = format_byte_size(list[i].avail);
                let entry = mount_fragment(list[i].mounted_on.as_str(), avail_text.as_str());
                entries.append(entry.as_str());
            } else {
                assert(entries@ + Seq::<char>::empty() =~= entries@);
            }
            i += 1;
        }
        assert(all.take(i as int) =~= all);
    }
    ThreadResponse { block: Block::Disk, msg: Format::Foreground(Color::Green).apply(entries) }
}

} // verus!
