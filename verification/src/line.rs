//! The aggregator: the latest fragment of every source, and the line that is
//! drawn from them.

use crate::markup::{block, complete, lemma_block_complete, lemma_complete_concat};
use crate::text::{decimal, decimal_text};
use std::collections::HashMap;
use vstd::prelude::*;

verus! {

broadcast use vstd::std_specs::hash::group_hash_axioms;

/// The identity of a data source. `I3` carries the index of a group of
/// workspaces; each index is a source of its own.
#[derive(Clone, Copy, Debug, PartialEq, Eq, Hash)]
pub enum Block {
    Clock,
    I3(u8),
    Network,
    Disk,
    Battery,
    Cpu,
}

/// What a producer sends on each tick: its identity and the fragment it
/// rendered.
#[derive(Debug, PartialEq, Eq)]
pub struct ThreadResponse {
    pub block: Block,
    pub msg: String,
}

/// The fragments received so far, the latest of each source. An entry is made
/// by the first update of a source, replaced by each later one, and never
/// removed.
pub struct LineState {
    slots: HashMap<u16, String>,
}

impl Block {
    /// A number that tells the sources apart.
    spec fn key(self) -> u16 {
        match self {
            Block::Clock => 0,
            Block::Network => 1,
            Block::Disk => 2,
            Block::Battery => 3,
            Block::Cpu => 4,
            Block::I3(n) => (256 + n) as u16,
        }
    }

    fn slot(&self) -> (k: u16)
        ensures
            k == self.key(),
    {
        match *self {
            Block::Clock => 0,
            Block::Network => 1,
            Block::Disk => 2,
            Block::Battery => 3,
            Block::Cpu => 4,
            Block::I3(n) => 256 + (n as u16),
        }
    }

    /// The milliseconds between two samples of the source. `None` for a
    /// source without a schedule: the workspaces are sampled whenever the
    /// window manager reports a change, and nothing samples the network.
    pub open spec fn period(self) -> Option<u64> {
        match self {
            Block::Clock => Some(1000),
            Block::Cpu => Some(3000),
            Block::Disk => Some(10000),
            Block::Battery => Some(10000),
            Block::I3(_) => None,
            Block::Network => None,
        }
    }

    /// The time to wait after a sample of the source before the next one.
    pub fn interval(&self) -> (millis: Option<u64>)
        ensures
            millis == self.period(),
    {
        match *self {
            Block::Clock => Some(1000),
            Block::Cpu => Some(3000),
            Block::Disk => Some(10000),
            Block::Battery => Some(10000),
            Block::I3(_) => None,
            Block::Network => None,
        }
    }

    /// Whether the line has a place for the source's fragment.
    pub open spec fn shown(self) -> bool {
        self == Block::I3(0) || self == Block::Clock || self == Block::Battery || self
            == Block::Disk || self == Block::Cpu
    }

    proof fn lemma_key_injective(self, other: Block)
        ensures
            self.key() == other.key() <==> self == other,
    {
    }
}

/// The text that `block` contributes to the line: its latest fragment, or
/// nothing before its first update.
pub open spec fn fragment(state: Map<Block, Seq<char>>, block: Block) -> Seq<char> {
    if state.contains_key(block) {
        state[block]
    } else {
        Seq::empty()
    }
}

/// The part of the line that is drawn on one screen: the screen's marker, then
/// the left group (workspaces), the centre group (clock) and the right group
/// (battery, disk, load), each behind its alignment marker.
pub open spec fn screen_line(state: Map<Block, Seq<char>>, screen: nat) -> Seq<char> {
    "%{S"@ + decimal(screen) + "}"@ + "%{l}"@ + fragment(state, Block::I3(0)) + "%{c}"@ + fragment(
        state,
        Block::Clock,
    ) + "%{r}"@ + fragment(state, Block::Battery) + fragment(state, Block::Disk) + fragment(
        state,
        Block::Cpu,
    )
}

/// The whole line: the same groups on the first screen and on the second.
pub open spec fn line(state: Map<Block, Seq<char>>) -> Seq<char> {
    screen_line(state, 0) + screen_line(state, 1)
}

impl View for LineState {
    type V = Map<Block, Seq<char>>;

    closed spec fn view(&self) -> Map<Block, Seq<char>> {
        Map::new(
            |b: Block| self.slots@.contains_key(b.key()),
            |b: Block| self.slots@[b.key()]@,
        )
    }
}

impl LineState {
    /// The state before any update.
    pub fn new() -> (state: LineState)
        ensures
            state@ == Map::<Block, Seq<char>>::empty(),
    {
        let state = LineState { slots: HashMap::new() };
        assert(state@ =~= Map::<Block, Seq<char>>::empty());
        state
    }

    /// The latest fragment of `block`, if it has sent one.
    pub fn get(&self, block: Block) -> (found: Option<&String>)
        ensures
            match found {
                Some(text) => self@.contains_key(block) && text@ == self@[block],
                None => !self@.contains_key(block),
            },
    {
        let k = block.slot();
        self.slots.get(&k)
    }

    /// Takes an update in: the fragment becomes the entry of its source, in
    /// place of an earlier one. All other entries stay.
    pub fn update(&mut self, response: ThreadResponse)
        ensures
            final(self)@ == old(self)@.insert(response.block, response.msg@),
    {
        let k = response.block.slot();
        self.slots.insert(k, response.msg);
        proof {
            assert forall|b: Block| #[trigger] b.key() == response.block.key() implies b
                == response.block by {
                b.lemma_key_injective(response.block);
            }
            assert(self@ =~= old(self)@.insert(response.block, response.msg@));
        }
    }

    /// Takes an update in and renders the line that follows from it.
    pub fn receive(&mut self, response: ThreadResponse) -> (text: String)
        ensures
            final(self)@ == old(self)@.insert(response.block, response.msg@),
            text@ == line(final(self)@),
    {
        self.update(response);
        render_blocks(self)
    }

    fn append_fragment(&self, text: &mut String, block: Block)
        ensures
            final(text)@ == old(text)@ + fragment(self@, block),
    {
        match self.get(block) {
            Some(s) => {
                text.append(s.as_str());
            },
            None => {
                assert(text@ + Seq::<char>::empty() =~= text@);
            },
        }
    }
}

/// Renders the line: for each of the two screens its marker and the three
/// groups in their fixed order. A source that has not sent anything yet
/// contributes nothing.
pub fn render_blocks(blocks: &LineState) -> (text: String)
    ensures
        text@ == line(blocks@),
{
    let mut text = String::new();
    let mut screen: u64 = 0;
    while screen < 2
        invariant
            screen <= 2,
            text@ == if screen == 0 {
                Seq::<char>::empty()
            } else if screen == 1 {
                screen_line(blocks@, 0)
            } else {
                line(blocks@)
            },
        decreases 2 - screen,
    {
        let ghost before = text@;
        text.append("%{S");
        text.append(decimal_text(screen).as_str());
        text.append("}");
        text.append("%{l}");
        blocks.append_fragment(&mut text, Block::I3(0));
        text.append("%{c}");
        blocks.append_fragment(&mut text, Block::Clock);
        text.append("%{r}");
        blocks.append_fragment(&mut text, Block::Battery);
        blocks.append_fragment(&mut text, Block::Disk);
        blocks.append_fragment(&mut text, Block::Cpu);
        assert(text@ =~= before + screen_line(blocks@, screen as nat));
        assert(Seq::<char>::empty() + screen_line(blocks@, 0) =~= screen_line(blocks@, 0));
        screen += 1;
    }
    text
}

/// The same update twice leaves what one leaves: the state, and with it the
/// line.
pub proof fn lemma_update_twice(state: Map<Block, Seq<char>>, block: Block, msg: Seq<char>)
    ensures
        state.insert(block, msg).insert(block, msg) == state.insert(block, msg),
        line(state.insert(block, msg).insert(block, msg)) == line(state.insert(block, msg)),
{
    assert(state.insert(block, msg).insert(block, msg) =~= state.insert(block, msg));
}

/// A later update of a source replaces the earlier one: nothing of the
/// earlier fragment is left.
pub proof fn lemma_update_replaces(
    state: Map<Block, Seq<char>>,
    block: Block,
    earlier: Seq<char>,
    later: Seq<char>,
)
    ensures
        state.insert(block, earlier).insert(block, later) == state.insert(block, later),
        fragment(state.insert(block, earlier).insert(block, later), block) == later,
{
    assert(state.insert(block, earlier).insert(block, later) =~= state.insert(block, later));
}

/// An update changes the fragment of its own source and of no other.
pub proof fn lemma_update_keeps_others(
    state: Map<Block, Seq<char>>,
    block: Block,
    msg: Seq<char>,
    other: Block,
)
    requires
        other != block,
    ensures
        fragment(state.insert(block, msg), block) == msg,
        fragment(state.insert(block, msg), other) == fragment(state, other),
{
}

/// The state that a run of updates leaves, each taken in as it arrives.
pub open spec fn after(
    state: Map<Block, Seq<char>>,
    updates: Seq<(Block, Seq<char>)>,
) -> Map<Block, Seq<char>> {
    updates.fold_left(
        state,
        |s: Map<Block, Seq<char>>, u: (Block, Seq<char>)| s.insert(u.0, u.1),
    )
}

/// The fragment of the last update among `updates` that `block` sent, if it
/// sent any.
pub open spec fn latest(updates: Seq<(Block, Seq<char>)>, block: Block) -> Option<Seq<char>>
    decreases updates.len(),
{
    if updates.len() == 0 {
        None
    } else if updates.last().0 == block {
        Some(updates.last().1)
    } else {
        latest(updates.drop_last(), block)
    }
}

/// After a run of updates every source has its latest fragment: no update is
/// dropped, none overtakes a later one of the same source, and a source
/// that sent none is where it was before.
pub proof fn lemma_latest_wins(
    state: Map<Block, Seq<char>>,
    updates: Seq<(Block, Seq<char>)>,
    block: Block,
)
    ensures
        fragment(after(state, updates), block) == match latest(updates, block) {
            Some(msg) => msg,
            None => fragment(state, block),
        },
    decreases updates.len(),
{
    if updates.len() > 0 {
        lemma_latest_wins(state, updates.drop_last(), block);
    }
}

/// Once each of the five sources that the line shows has sent an update, the
/// line holds the latest fragment of each, once for each screen, in the fixed
/// order: workspaces, clock, battery, disk, load.
pub proof fn lemma_line_of_all(state: Map<Block, Seq<char>>)
    requires
        state.contains_key(Block::I3(0)),
        state.contains_key(Block::Clock),
        state.contains_key(Block::Battery),
        state.contains_key(Block::Disk),
        state.contains_key(Block::Cpu),
    ensures
        line(state) == "%{S"@ + decimal(0) + "}"@ + "%{l}"@ + state[Block::I3(0)] + "%{c}"@
            + state[Block::Clock] + "%{r}"@ + state[Block::Battery] + state[Block::Disk]
            + state[Block::Cpu] + ("%{S"@ + decimal(1) + "}"@ + "%{l}"@ + state[Block::I3(0)]
            + "%{c}"@ + state[Block::Clock] + "%{r}"@ + state[Block::Battery] + state[Block::Disk]
            + state[Block::Cpu]),
{
}

/// A source that has not sent anything contributes nothing: the line is the
/// one that its empty fragment would give.
pub proof fn lemma_missing_is_empty(state: Map<Block, Seq<char>>, block: Block)
    requires
        !state.contains_key(block),
    ensures
        fragment(state, block) == Seq::<char>::empty(),
        line(state) == line(state.insert(block, Seq::empty())),
{
    let filled = state.insert(block, Seq::empty());
    assert forall|b: Block| fragment(state, b) == fragment(filled, b) by {}
}

/// Before any update the line is the bare markers of the two screens.
pub proof fn lemma_line_of_nothing()
    ensures
        line(Map::empty()) == "%{S0}%{l}%{c}%{r}%{S1}%{l}%{c}%{r}"@,
{
    reveal_strlit("%{S");
    reveal_strlit("}");
    reveal_strlit("%{l}");
    reveal_strlit("%{c}");
    reveal_strlit("%{r}");
    reveal_strlit("%{S0}%{l}%{c}%{r}%{S1}%{l}%{c}%{r}");
    let state = Map::<Block, Seq<char>>::empty();
    assert(decimal(0) =~= seq!['0']);
    assert(decimal(1) =~= seq!['1']);
    assert(screen_line(state, 0) =~= seq![
        '%', '{', 'S', '0', '}', '%', '{', 'l', '}', '%', '{', 'c', '}', '%', '{', 'r', '}',
    ]);
    assert(screen_line(state, 1) =~= seq![
        '%', '{', 'S', '1', '}', '%', '{', 'l', '}', '%', '{', 'c', '}', '%', '{', 'r', '}',
    ]);
    assert(line(state) =~= "%{S0}%{l}%{c}%{r}%{S1}%{l}%{c}%{r}"@);
}

/// An update of a source that the line does not show leaves the line as it
/// is.
pub proof fn lemma_line_ignores_unshown(
    state: Map<Block, Seq<char>>,
    block: Block,
    msg: Seq<char>,
)
    requires
        !block.shown(),
    ensures
        line(state.insert(block, msg)) == line(state),
{
}

/// The line is complete markup where the fragments that it shows are: a
/// source that has not sent anything leaves no gap in it and breaks no
/// block.
pub proof fn lemma_line_is_markup(state: Map<Block, Seq<char>>)
    requires
        forall|b: Block| b.shown() && state.contains_key(b) ==> complete(#[trigger] state[b]),
    ensures
        complete(line(state)),
{
    lemma_screen_is_markup(state, 0);
    lemma_screen_is_markup(state, 1);
    lemma_complete_concat(screen_line(state, 0), screen_line(state, 1));
}

proof fn lemma_screen_is_markup(state: Map<Block, Seq<char>>, screen: nat)
    requires
        forall|b: Block| b.shown() && state.contains_key(b) ==> complete(#[trigger] state[b]),
        screen < 2,
    ensures
        complete(screen_line(state, screen)),
{
    reveal_strlit("%{S");
    reveal_strlit("}");
    reveal_strlit("%{l}");
    reveal_strlit("%{c}");
    reveal_strlit("%{r}");
    let head = "%{S"@ + decimal(screen) + "}"@;
    let workspaces = fragment(state, Block::I3(0));
    let clock = fragment(state, Block::Clock);
    let battery = fragment(state, Block::Battery);
    let disk = fragment(state, Block::Disk);
    let cpu = fragment(state, Block::Cpu);
    assert(Block::I3(0).shown() && Block::Clock.shown() && Block::Battery.shown()
        && Block::Disk.shown() && Block::Cpu.shown());
    assert(decimal(screen) =~= seq![if screen == 0 { '0' } else { '1' }]);
    assert(head =~= block(seq!['S'] + decimal(screen)));
    assert("%{l}"@ =~= block(seq!['l']));
    assert("%{c}"@ =~= block(seq!['c']));
    assert("%{r}"@ =~= block(seq!['r']));
    lemma_block_complete(seq!['S'] + decimal(screen));
    lemma_block_complete(seq!['l']);
    lemma_block_complete(seq!['c']);
    lemma_block_complete(seq!['r']);
    lemma_complete_concat(head, "%{l}"@);
    lemma_complete_concat(head + "%{l}"@, workspaces);
    lemma_complete_concat(head + "%{l}"@ + workspaces, "%{c}"@);
    lemma_complete_concat(head + "%{l}"@ + workspaces + "%{c}"@, clock);
    lemma_complete_concat(head + "%{l}"@ + workspaces + "%{c}"@ + clock, "%{r}"@);
    lemma_complete_concat(head + "%{l}"@ + workspaces + "%{c}"@ + clock + "%{r}"@, battery);
    lemma_complete_concat(
        head + "%{l}"@ + workspaces + "%{c}"@ + clock + "%{r}"@ + battery,
        disk,
    );
    lemma_complete_concat(
        head + "%{l}"@ + workspaces + "%{c}"@ + clock + "%{r}"@ + battery + disk,
        cpu,
    );
}

} // verus!
