//! Source files, line offsets, per-file highlight data, and the fold
//! switches of the cards.

use std::collections::HashMap;
use vstd::prelude::*;
use vstd::string::*;
use crate::cards::{Card, CardId, CardKind};
use crate::syntax::TokenKind;
use crate::text::chars_of;

verus! {

/// Byte offsets of the starts of the lines of `b[0..n]`: always 0, then
/// one past each newline byte in that prefix.
pub open spec fn line_starts(b: Seq<u8>, n: nat) -> Seq<usize>
    decreases n,
{
    if n == 0 {
        seq![0usize]
    } else {
        let prev = line_starts(b, (n - 1) as nat);
        if b[n - 1] == 10u8 {
            prev.push(n as usize)
        } else {
            prev
        }
    }
}

/// The full offsets table of a byte string: the line starts plus a
/// sentinel at its length.
pub open spec fn line_offsets_of(b: Seq<u8>) -> Seq<usize> {
    line_starts(b, b.len()).push(b.len() as usize)
}

/// Compute byte offsets of the start of each line, plus a sentinel offset
/// at `contents.len()` so `offsets[i+1] - offsets[i]` is line i's length.
pub fn compute_line_offsets(contents: &str) -> (offsets: Vec<usize>)
    ensures
        offsets@ == line_offsets_of(contents.spec_bytes()),
{
    let bytes = contents.as_bytes();
    let mut offsets: Vec<usize> = Vec::new();
    offsets.push(0);
    let mut i: usize = 0;
    while i < bytes.len()
        invariant
            i <= bytes@.len(),
            bytes@ == contents.spec_bytes(),
            offsets@ == line_starts(bytes@, i as nat),
        decreases bytes@.len() - i,
    {
        if bytes[i] == 10u8 {
            offsets.push(i + 1);
        }
        i = i + 1;
    }
    offsets.push(bytes.len());
    offsets
}

proof fn lemma_line_starts_bounded(b: Seq<u8>, n: nat)
    requires
        n <= b.len(),
        b.len() <= usize::MAX,
    ensures
        crate::cards::sorted(line_starts(b, n)),
        forall|i: int| 0 <= i < line_starts(b, n).len() ==> #[trigger] line_starts(b, n)[i] <= n,
        line_starts(b, n)[0] == 0,
        line_starts(b, n).len() >= 1,
    decreases n,
{
    if n > 0 {
        lemma_line_starts_bounded(b, (n - 1) as nat);
        let prev = line_starts(b, (n - 1) as nat);
        if b[n - 1] == 10u8 {
            assert forall|i: int| 0 <= i < prev.push(n as usize).len() implies #[trigger] prev.push(
                n as usize,
            )[i] <= n by {
                if i < prev.len() {
                    assert(prev.push(n as usize)[i] == prev[i]);
                }
            }
            let q = prev.push(n as usize);
            assert(crate::cards::sorted(q)) by {
                assert forall|i: int, j: int| 0 <= i <= j < q.len() implies #[trigger] q[i] <= #[trigger] q[j] by {
                    if j < prev.len() {
                        assert(q[i] == prev[i]);
                        assert(q[j] == prev[j]);
                    } else if i < prev.len() {
                        assert(q[i] == prev[i]);
                    }
                }
            }
        }
    }
}

/// The offsets table starts at 0, never decreases, and ends at the
/// length: every line's byte range is well formed.
pub proof fn law_line_offsets_sorted(b: Seq<u8>)
    requires
        b.len() <= usize::MAX,
    ensures
        crate::cards::sorted(line_offsets_of(b)),
        line_offsets_of(b)[0] == 0,
        line_offsets_of(b).last() == b.len(),
        line_offsets_of(b).len() >= 2,
{
    lemma_line_starts_bounded(b, b.len());
    let p = line_starts(b, b.len());
    let q = p.push(b.len() as usize);
    assert forall|i: int, j: int| 0 <= i <= j < q.len() implies #[trigger] q[i] <= #[trigger] q[j] by {
        if j < p.len() {
            assert(q[i] == p[i]);
            assert(q[j] == p[j]);
        } else if i < p.len() {
            assert(q[i] == p[i]);
        }
    }
}

/// Number of newline bytes among the first `n` bytes of `b`.
pub open spec fn newlines_before(b: Seq<u8>, n: int) -> nat
    decreases n,
{
    if n <= 0 {
        0
    } else {
        newlines_before(b, n - 1) + if b[n - 1] == 10u8 {
            1nat
        } else {
            0nat
        }
    }
}

/// More bytes hold at least as many newlines, and no more than bytes.
pub proof fn lemma_newlines_monotone(b: Seq<u8>, x: int, y: int)
    requires
        0 <= x <= y,
    ensures
        newlines_before(b, x) <= newlines_before(b, y),
        newlines_before(b, y) <= y,
    decreases y,
{
    if y > 0 {
        if x < y {
            lemma_newlines_monotone(b, x, y - 1);
        } else {
            lemma_newlines_monotone(b, x - 1, y - 1);
        }
    }
}

/// Line start `i` of `b[0..n]` has exactly `i` newlines before it, and
/// any start but the first follows a newline.
pub proof fn lemma_line_starts_count(b: Seq<u8>, n: nat)
    requires
        n <= b.len(),
        b.len() <= usize::MAX,
    ensures
        line_starts(b, n).len() == 1 + newlines_before(b, n as int),
        line_starts(b, n)[0] == 0,
        forall|i: int| 0 <= i < line_starts(b, n).len() ==> {
            &&& newlines_before(b, #[trigger] line_starts(b, n)[i] as int) == i
            &&& line_starts(b, n)[i] <= n
            &&& (i >= 1 ==> line_starts(b, n)[i] >= 1 && b[line_starts(b, n)[i] - 1] == 10u8)
        },
    decreases n,
{
    if n > 0 {
        lemma_line_starts_count(b, (n - 1) as nat);
        let prev = line_starts(b, (n - 1) as nat);
        if b[n - 1] == 10u8 {
            let q = prev.push(n as usize);
            assert forall|i: int| 0 <= i < q.len() implies {
                &&& newlines_before(b, #[trigger] q[i] as int) == i
                &&& q[i] <= n
                &&& (i >= 1 ==> q[i] >= 1 && b[q[i] - 1] == 10u8)
            } by {
                if i < prev.len() {
                    assert(q[i] == prev[i]);
                }
            }
        }
    }
}

/// Line start `i` lies at or before byte `x` exactly when at least `i`
/// newlines come before `x`.
pub proof fn lemma_line_start_at_or_before(b: Seq<u8>, x: int, i: int)
    requires
        b.len() <= usize::MAX,
        0 <= x <= b.len(),
        0 <= i < line_starts(b, b.len()).len(),
    ensures
        (line_starts(b, b.len())[i] <= x) <==> i <= newlines_before(b, x),
{
    lemma_line_starts_count(b, b.len());
    let l = line_starts(b, b.len());
    if l[i] <= x {
        lemma_newlines_monotone(b, l[i] as int, x);
    } else {
        lemma_newlines_monotone(b, x, l[i] - 1);
    }
}

/// The pieces of `s` between `'\n'` characters (`str::split('\n')`):
/// always at least one, the last possibly empty.
pub open spec fn split_newlines(s: Seq<char>) -> Seq<Seq<char>>
    decreases s.len(),
{
    if s.len() == 0 {
        seq![seq![]]
    } else {
        let r = split_newlines(s.drop_last());
        if s.last() == '\n' {
            r.push(seq![])
        } else {
            r.update(r.len() - 1, r.last().push(s.last()))
        }
    }
}

pub proof fn lemma_split_newlines_nonempty(s: Seq<char>)
    ensures
        split_newlines(s).len() >= 1,
    decreases s.len(),
{
    if s.len() > 0 {
        lemma_split_newlines_nonempty(s.drop_last());
    }
}

/// A line without its trailing `'\r'`, if it has one.
pub open spec fn strip_cr(l: Seq<char>) -> Seq<char> {
    if l.len() > 0 && l.last() == '\r' {
        l.drop_last()
    } else {
        l
    }
}

/// The lines of a file's contents: split on `'\n'` (so a final newline
/// leaves an empty last line), each with a trailing `'\r'` removed.
pub open spec fn source_lines(s: Seq<char>) -> Seq<Seq<char>> {
    split_newlines(s).map_values(|l: Seq<char>| strip_cr(l))
}

/// A source file loaded from disk, with its contents pre-split into lines.
#[derive(Debug, Clone)]
pub struct SourceFile {
    pub path: String,
    pub contents: String,
    pub lines: Vec<String>,
}

/// Why a source file could not be loaded.
#[derive(Debug, Clone, PartialEq, Eq)]
pub enum SourceError {
    /// Nothing exists at the path.
    NotFound(String),
    /// The path names a directory, not a file.
    IsDirectory(String),
    /// The file system reported another failure (its message).
    Io { path: String, message: String },
}

/// What the file system said of a path before reading it.
#[derive(Debug, Clone, PartialEq, Eq)]
pub enum PathStatus {
    /// Something that is not a directory exists there.
    Present,
    Directory,
    Missing,
    /// Looking the path up failed for another reason (its message).
    Failed(String),
}

/// The outcome of loading a file from what the file system reported:
/// the path's status, and, for a present path, the result of reading it
/// as UTF-8 text.
pub open spec fn load_outcome(path: Seq<char>, status: PathStatus, read: Option<Result<Seq<char>, Seq<char>>>) -> Result<(Seq<char>, Seq<char>), SourceErrorView> {
    match status {
        PathStatus::Directory => Err(SourceErrorView::IsDirectory(path)),
        PathStatus::Missing => Err(SourceErrorView::NotFound(path)),
        PathStatus::Failed(m) => Err(SourceErrorView::Io(path, m@)),
        PathStatus::Present => match read {
            Some(Ok(c)) => Ok((path, c)),
            Some(Err(m)) => Err(SourceErrorView::Io(path, m)),
            None => Err(SourceErrorView::Io(path, seq![])),
        },
    }
}

/// The mathematical content of a `SourceError`.
pub ghost enum SourceErrorView {
    NotFound(Seq<char>),
    IsDirectory(Seq<char>),
    Io(Seq<char>, Seq<char>),
}

impl View for SourceError {
    type V = SourceErrorView;

    open spec fn view(&self) -> SourceErrorView {
        match self {
            SourceError::NotFound(p) => SourceErrorView::NotFound(p@),
            SourceError::IsDirectory(p) => SourceErrorView::IsDirectory(p@),
            SourceError::Io { path, message } => SourceErrorView::Io(path@, message@),
        }
    }
}

impl SourceFile {
    /// A source file with the given path and contents; `lines` is
    /// `source_lines(contents)`.
    pub fn from_contents(path: String, contents: String) -> (f: SourceFile)
        ensures
            f.path@ == path@,
            f.contents@ == contents@,
            crate::cards::string_views(f.lines@) == source_lines(contents@),
    {
        let v = chars_of(contents.as_str());
        let ghost s = contents@;
        let mut lines: Vec<String> = Vec::new();
        let mut start: usize = 0;
        let mut i: usize = 0;
        proof {
            assert(s.take(0) =~= seq![]);
            assert(s.subrange(0, 0) =~= seq![]);
            assert(crate::cards::string_views(lines@) + seq![s.subrange(0, 0)] =~= seq![seq![]]);
        }
        while i < v.len()
            invariant
                v@ == s,
                s == contents@,
                start <= i <= v@.len(),
                crate::cards::string_views(lines@) + seq![s.subrange(start as int, i as int)]
                    == split_newlines(s.take(i as int)),
            decreases v@.len() - i,
        {
            proof {
                assert(s.take(i + 1).drop_last() =~= s.take(i as int));
                assert(s.take(i + 1).last() == v@[i as int]);
            }
            if v[i] == '\n' {
                let ghost before = crate::cards::string_views(lines@);
                let piece = String::from_str(contents.as_str().substring_char(start, i));
                lines.push(piece);
                proof {
                    assert(crate::cards::string_views(lines@) =~= before.push(
                        s.subrange(start as int, i as int),
                    ));
                    assert(s.subrange((i + 1) as int, (i + 1) as int) =~= seq![]);
                    assert(crate::cards::string_views(lines@) + seq![
                        s.subrange((i + 1) as int, (i + 1) as int),
                    ] =~= split_newlines(s.take(i + 1)));
                }
                start = i + 1;
            } else {
                proof {
                    let r = split_newlines(s.take(i as int));
                    assert(s.subrange(start as int, i + 1) =~= s.subrange(start as int, i as int).push(
                        v@[i as int],
                    ));
                    assert(crate::cards::string_views(lines@) + seq![
                        s.subrange(start as int, i + 1),
                    ] =~= r.update(r.len() - 1, r.last().push(v@[i as int])));
                }
            }
            i = i + 1;
        }
        let last = String::from_str(contents.as_str().substring_char(start, v.len()));
        lines.push(last);
        assert(s.take(v@.len() as int) =~= s);
        let ghost pieces = split_newlines(s);
        assert(crate::cards::string_views(lines@) =~= pieces);
        let mut out: Vec<String> = Vec::new();
        let mut k: usize = 0;
        while k < lines.len()
            invariant
                k <= lines@.len(),
                crate::cards::string_views(lines@) == pieces,
                crate::cards::string_views(out@) =~= pieces.take(k as int).map_values(
                    |l: Seq<char>| strip_cr(l),
                ),
            decreases lines@.len() - k,
        {
            let line = lines[k].as_str();
            let cs = chars_of(line);
            let n = cs.len();
            let end = if n > 0 && cs[n - 1] == '\r' {
                n - 1
            } else {
                n
            };
            let stripped = String::from_str(line.substring_char(0, end));
            proof {
                assert(pieces[k as int] == line@);
                assert(stripped@ =~= strip_cr(line@));
            }
            out.push(stripped);
            proof {
                assert(pieces.take(k + 1).map_values(|l: Seq<char>| strip_cr(l)) =~= pieces.take(
                    k as int,
                ).map_values(|l: Seq<char>| strip_cr(l)).push(strip_cr(pieces[k as int])));
            }
            k = k + 1;
        }
        assert(pieces.take(lines@.len() as int) =~= pieces);
        SourceFile { path, contents, lines: out }
    }

    /// Load a file from what the file system reported of it: `status` of
    /// the path and, when one was made, the result of reading it as text.
    pub fn from_read(path: String, status: PathStatus, read: Option<Result<String, String>>) -> (r: Result<SourceFile, SourceError>)
        ensures
            match load_outcome(path@, status, match read {
                Some(Ok(c)) => Some(Ok(c@)),
                Some(Err(m)) => Some(Err(m@)),
                None => None,
            }) {
                Ok((p, c)) => r matches Ok(f) && f.path@ == p && f.contents@ == c
                    && crate::cards::string_views(f.lines@) == source_lines(c),
                Err(e) => r matches Err(err) && err@ == e,
            },
    {
        match status {
            PathStatus::Directory => Err(SourceError::IsDirectory(path)),
            PathStatus::Missing => Err(SourceError::NotFound(path)),
            PathStatus::Failed(m) => Err(SourceError::Io { path, message: m }),
            PathStatus::Present => match read {
                Some(Ok(c)) => Ok(SourceFile::from_contents(path, c)),
                Some(Err(m)) => Err(SourceError::Io { path, message: m }),
                None => Err(SourceError::Io { path, message: String::new() }),
            },
        }
    }
}

/// Window size in physical pixels.
#[derive(Debug, Clone, Copy, PartialEq, Eq, Structural)]
pub struct WindowSize {
    pub width: u32,
    pub height: u32,
}

/// A file with its per-byte token kinds and its line offsets: what the
/// code pane draws from.
#[derive(Debug)]
pub struct HighlightedSource {
    pub source: SourceFile,
    /// `kinds[i]` is the token kind of byte `i` of the contents.
    pub kinds: Vec<TokenKind>,
    /// Byte offset of the start of each line, plus a sentinel at the
    /// contents' length.
    pub line_offsets: Vec<usize>,
}

impl HighlightedSource {
    /// Assemble from pieces computed by the caller.
    pub fn from_parts(source: SourceFile, kinds: Vec<TokenKind>, line_offsets: Vec<usize>) -> (h: Self)
        ensures
            h.source == source,
            h.kinds == kinds,
            h.line_offsets == line_offsets,
    {
        HighlightedSource { source, kinds, line_offsets }
    }

    /// Number of lines: one less than the offsets (the sentinel), or 0.
    pub fn line_count(&self) -> (n: usize)
        ensures
            n == if self.line_offsets@.len() == 0 {
                0
            } else {
                self.line_offsets@.len() - 1
            },
    {
        let len = self.line_offsets.len();
        if len == 0 {
            0
        } else {
            len - 1
        }
    }
}

/// The discrete positions of a card's fold switch, from most folded to
/// least.
#[derive(Debug, Clone, Copy, PartialEq, Eq, Hash, Structural)]
pub enum FoldState {
    Folded,
    /// Header and docstring visible, body hidden.
    HeaderOnly,
    Unfolded,
}

/// The slots of a card's fold switch, in order: none for snippets;
/// three for functions and methods whose body starts with a docstring;
/// two otherwise.
pub open spec fn fold_states(kind: CardKind, has_docstring: bool) -> Seq<FoldState> {
    if kind == CardKind::Snippet {
        seq![]
    } else if (kind == CardKind::Function || kind == CardKind::Method) && has_docstring {
        seq![FoldState::Folded, FoldState::HeaderOnly, FoldState::Unfolded]
    } else {
        seq![FoldState::Folded, FoldState::Unfolded]
    }
}

/// The fold switch of a card: a snippet has none; any other card offers
/// `Folded` first and `Unfolded` last, and the `HeaderOnly` slot between
/// them exactly when it is a function or method with a docstring. A
/// method offers the same slots as a function.
pub proof fn law_fold_slots(kind: CardKind, has_docstring: bool)
    ensures
        kind == CardKind::Snippet ==> fold_states(kind, has_docstring).len() == 0,
        kind != CardKind::Snippet ==> {
            let f = fold_states(kind, has_docstring);
            &&& f.len() >= 2
            &&& f[0] == FoldState::Folded
            &&& f.last() == FoldState::Unfolded
            &&& (f.contains(FoldState::HeaderOnly) <==> ((kind == CardKind::Function || kind
                == CardKind::Method) && has_docstring))
            &&& f.len() == if f.contains(FoldState::HeaderOnly) { 3int } else { 2int }
            &&& (f.len() == 3 ==> f[1] == FoldState::HeaderOnly)
        },
        fold_states(CardKind::Method, has_docstring) == fold_states(CardKind::Function, has_docstring),
{
    let f = fold_states(kind, has_docstring);
    if kind != CardKind::Snippet {
        if f.len() == 2 {
            assert(!f.contains(FoldState::HeaderOnly)) by {
                if f.contains(FoldState::HeaderOnly) {
                    let i = choose|i: int| 0 <= i < f.len() && f[i] == FoldState::HeaderOnly;
                }
            }
        } else {
            assert(f[1] == FoldState::HeaderOnly);
            assert(f.contains(FoldState::HeaderOnly));
        }
    }
}

/// Ordered fold states this card supports (its switch's slots).
pub fn card_fold_states(card: &Card) -> (r: Vec<FoldState>)
    ensures
        r@ == fold_states(card.kind, card.docstring_range is Some),
{
    let r = match card.kind {
        CardKind::Snippet => vec![],
        CardKind::Function | CardKind::Method => if card.docstring_range.is_some() {
            vec![FoldState::Folded, FoldState::HeaderOnly, FoldState::Unfolded]
        } else {
            vec![FoldState::Folded, FoldState::Unfolded]
        },
        CardKind::Class => vec![FoldState::Folded, FoldState::Unfolded],
    };
    assert(r@ =~= fold_states(card.kind, card.docstring_range is Some));
    r
}

/// Slot index of `state` on the card's switch, or `None` when the card
/// has no such slot.
pub fn card_slot_index(card: &Card, state: FoldState) -> (r: Option<usize>)
    ensures
        match r {
            Some(i) => crate::tree::is_first(
                fold_states(card.kind, card.docstring_range is Some),
                |s: FoldState| s == state,
                i as int,
            ),
            None => !fold_states(card.kind, card.docstring_range is Some).contains(state),
        },
{
    let states = card_fold_states(card);
    let mut i: usize = 0;
    while i < states.len()
        invariant
            i <= states@.len(),
            states@ == fold_states(card.kind, card.docstring_range is Some),
            forall|j: int| 0 <= j < i ==> states@[j] != state,
        decreases states@.len() - i,
    {
        if states[i] == state {
            return Some(i);
        }
        i = i + 1;
    }
    None
}

/// A fold-switch press in progress: the card, the slot pressed, and the
/// target the card had before, restored if the press is cancelled.
#[derive(Debug, Clone, Copy, PartialEq, Eq, Structural)]
pub struct ActivePress {
    pub card_id: CardId,
    pub clicked_state: FoldState,
    pub original_target: FoldState,
}

/// The fold targets of the cards, keyed by card id (a card without an
/// entry is unfolded), and the press in progress, if any.
#[derive(Debug)]
pub struct FoldSwitches {
    pub targets: HashMap<u32, FoldState>,
    pub press: Option<ActivePress>,
}

pub ghost struct FoldSwitchesView {
    pub targets: Map<u32, FoldState>,
    pub press: Option<ActivePress>,
}

impl View for FoldSwitches {
    type V = FoldSwitchesView;

    open spec fn view(&self) -> FoldSwitchesView {
        FoldSwitchesView { targets: self.targets@, press: self.press }
    }
}

/// The fold target of card `id`: its entry, or `Unfolded` without one.
pub open spec fn target_of(targets: Map<u32, FoldState>, id: CardId) -> FoldState {
    if targets.contains_key(id.0) {
        targets[id.0]
    } else {
        FoldState::Unfolded
    }
}

/// After setting the target of `id` to `t`.
pub open spec fn with_target(v: FoldSwitchesView, id: CardId, t: FoldState) -> FoldSwitchesView {
    FoldSwitchesView { targets: v.targets.insert(id.0, t), press: v.press }
}

/// After pressing slot `clicked` of card `id`: the target moves to the
/// pressed slot at once, and the previous target is remembered.
pub open spec fn pressed(v: FoldSwitchesView, id: CardId, clicked: FoldState) -> FoldSwitchesView {
    FoldSwitchesView {
        targets: v.targets.insert(id.0, clicked),
        press: Some(ActivePress { card_id: id, clicked_state: clicked, original_target: target_of(v.targets, id) }),
    }
}

/// After committing: the press record is dropped, targets stay.
pub open spec fn committed(v: FoldSwitchesView) -> FoldSwitchesView {
    FoldSwitchesView { targets: v.targets, press: None }
}

/// After cancelling: the pressed card gets its original target back and
/// the press record is dropped; without a press nothing changes.
pub open spec fn cancelled(v: FoldSwitchesView) -> FoldSwitchesView {
    match v.press {
        Some(p) => FoldSwitchesView {
            targets: v.targets.insert(p.card_id.0, p.original_target),
            press: None,
        },
        None => v,
    }
}

impl FoldSwitches {
    /// Every card unfolded, no press in progress.
    pub fn new() -> (f: Self)
        ensures
            f@.targets == Map::<u32, FoldState>::empty(),
            f@.press is None,
    {
        FoldSwitches { targets: HashMap::new(), press: None }
    }

    /// The fold target of card `id`.
    pub fn target(&self, id: CardId) -> (t: FoldState)
        ensures
            t == target_of(self@.targets, id),
    {
        broadcast use vstd::std_specs::hash::group_hash_axioms;
        match self.targets.get(&id.0) {
            Some(t) => *t,
            None => FoldState::Unfolded,
        }
    }

    /// Set the fold target of card `id`.
    pub fn set_fold_target(&mut self, id: CardId, target: FoldState)
        ensures
            final(self)@ == with_target(old(self)@, id, target),
    {
        broadcast use vstd::std_specs::hash::group_hash_axioms;
        self.targets.insert(id.0, target);
    }

    /// Begin a press on slot `clicked` of card `id`: remember the card's
    /// current target and move the target to the pressed slot.
    pub fn begin_press(&mut self, id: CardId, clicked: FoldState)
        ensures
            final(self)@ == pressed(old(self)@, id, clicked),
    {
        broadcast use vstd::std_specs::hash::group_hash_axioms;
        let original_target = self.target(id);
        self.press = Some(ActivePress { card_id: id, clicked_state: clicked, original_target });
        self.set_fold_target(id, clicked);
    }

    /// Commit the press in progress: the target stays where the press
    /// put it.
    pub fn commit_press(&mut self)
        ensures
            final(self)@ == committed(old(self)@),
    {
        self.press = None;
    }

    /// Cancel the press in progress: the pressed card's target goes back
    /// to what it was before. Nothing happens without a press.
    pub fn cancel_press(&mut self)
        ensures
            final(self)@ == cancelled(old(self)@),
    {
        broadcast use vstd::std_specs::hash::group_hash_axioms;
        if let Some(p) = self.press {
            self.press = None;
            self.targets.insert(p.card_id.0, p.original_target);
        }
    }

    /// Handle a left-button press (`is_press`) or release with `hit` the
    /// fold-switch slot under the cursor; returns whether to redraw.
    pub fn on_left_button(&mut self, is_press: bool, hit: Option<(CardId, FoldState)>) -> (redraw: bool)
        ensures
            final(self)@ == after_left_button(old(self)@, is_press, hit),
            redraw == left_button_redraws(old(self)@, is_press, hit),
    {
        if is_press {
            match hit {
                Some((id, clicked)) => {
                    self.begin_press(id, clicked);
                    true
                },
                None => false,
            }
        } else {
            match self.press {
                Some(p) => {
                    let same = match hit {
                        Some((id, clicked)) => id.0 == p.card_id.0 && clicked == p.clicked_state,
                        None => false,
                    };
                    if same {
                        self.commit_press();
                    } else {
                        self.cancel_press();
                    }
                    true
                },
                None => false,
            }
        }
    }
}

/// After a left-button event: `is_press` for a press, `hit` the
/// fold-switch slot under the cursor. A press over a slot begins a press
/// there; a release over the slot that was pressed commits, a release
/// anywhere else cancels; other events change nothing.
pub open spec fn after_left_button(v: FoldSwitchesView, is_press: bool, hit: Option<(CardId, FoldState)>) -> FoldSwitchesView {
    if is_press {
        match hit {
            Some((id, clicked)) => pressed(v, id, clicked),
            None => v,
        }
    } else {
        match v.press {
            Some(p) => if hit == Some((p.card_id, p.clicked_state)) {
                committed(v)
            } else {
                cancelled(v)
            },
            None => v,
        }
    }
}

/// Whether a left-button event changes what is drawn: a press over a
/// slot, or a release while a press is in progress.
pub open spec fn left_button_redraws(v: FoldSwitchesView, is_press: bool, hit: Option<(CardId, FoldState)>) -> bool {
    if is_press {
        hit is Some
    } else {
        v.press is Some
    }
}

/// Committing a press leaves the pressed card at the pressed slot.
pub proof fn law_commit_keeps_pressed_target(v: FoldSwitchesView, id: CardId, clicked: FoldState)
    ensures
        target_of(committed(pressed(v, id, clicked)).targets, id) == clicked,
        committed(pressed(v, id, clicked)).press is None,
{
}

/// Cancelling a press gives every card the target it had before the
/// press began.
pub proof fn law_cancel_restores_targets(v: FoldSwitchesView, id: CardId, clicked: FoldState)
    ensures
        forall|c: CardId| #[trigger] target_of(cancelled(pressed(v, id, clicked)).targets, c)
            == target_of(v.targets, c),
        cancelled(pressed(v, id, clicked)).press is None,
{
}

/// Pressing changes no card's target but the pressed one's.
pub proof fn law_press_touches_one_card(v: FoldSwitchesView, id: CardId, clicked: FoldState, c: CardId)
    requires
        c != id,
    ensures
        target_of(pressed(v, id, clicked).targets, c) == target_of(v.targets, c),
{
}

/// Pressing a slot and releasing over the same slot leaves the card at
/// that slot with no press in progress, whatever came before.
pub proof fn law_click_sets_target(v: FoldSwitchesView, id: CardId, clicked: FoldState)
    ensures
        ({
            let after = after_left_button(after_left_button(v, true, Some((id, clicked))), false, Some((id, clicked)));
            target_of(after.targets, id) == clicked && after.press is None
        }),
{
}

/// Pressing a slot and releasing anywhere but over it gives every card
/// back the target it had before the press.
pub proof fn law_release_elsewhere_changes_nothing(
    v: FoldSwitchesView,
    id: CardId,
    clicked: FoldState,
    released_on: Option<(CardId, FoldState)>,
)
    requires
        released_on != Some((id, clicked)),
    ensures
        ({
            let after = after_left_button(after_left_button(v, true, Some((id, clicked))), false, released_on);
            &&& forall|c: CardId| #[trigger] target_of(after.targets, c) == target_of(v.targets, c)
            &&& after.press is None
        }),
{
}

} // verus!
