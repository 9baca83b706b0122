//! Client-owned local path hit testing and the transient hover underline.

use vstd::prelude::*;
use crate::surface::{
    path_in_surface, path_in_surface_spec, rect_contains, FrameData, CellData, Rect, SurfaceRect,
};

verus! {

/// The style bit that underlines a cell.
pub const UNDERLINED: u16 = 8;

/// Input modes of the client shell.
#[derive(Clone, Copy, Debug, PartialEq, Eq, Structural)]
pub enum ClientShellMode {
    Terminal,
    Copy,
}

/// Where a pane's viewport sits in its scrollback.
#[derive(Clone, Copy, Debug, PartialEq, Eq, Structural)]
pub struct PaneSurfaceScrollMetrics {
    pub offset_from_bottom: usize,
    pub max_offset_from_bottom: usize,
    pub viewport_rows: usize,
}

/// One pane of a surface frame and the rectangle its content occupies.
#[derive(Clone, Debug)]
pub struct PaneSurfacePane {
    pub pane_id: String,
    pub content_revision: u64,
    pub inner_rect: SurfaceRect,
    pub scroll: Option<PaneSurfaceScrollMetrics>,
}

/// A rendered surface of panes, as received from the server.
#[derive(Clone, Debug)]
pub struct PaneSurfaceFrame {
    pub boot_id: String,
    pub projection_revision: u64,
    pub frame: FrameData,
    pub panes: Vec<PaneSurfacePane>,
}

/// Where a pane is shown on screen.
#[derive(Clone, Debug)]
pub struct PaneHit {
    pub pane_id: String,
    pub inner_rect: Rect,
    pub popup: bool,
}

/// The path under the pointer and everything it was computed from.
#[derive(Clone, Debug)]
pub struct LocalPathHover {
    pub pane_id: String,
    pub path: String,
    pub area: Rect,
    pub boot_id: String,
    pub content_revision: u64,
    pub scroll: Option<PaneSurfaceScrollMetrics>,
    pub cells: Vec<(u16, u16)>,
}

/// What a hover holds: pane, path, area, boot, revision, scroll and cells.
pub type HoverView = (Seq<char>, Seq<char>, Rect, Seq<char>, u64, Option<PaneSurfaceScrollMetrics>, Seq<(u16, u16)>);

impl View for LocalPathHover {
    type V = HoverView;

    open spec fn view(&self) -> HoverView {
        (self.pane_id@, self.path@, self.area, self.boot_id@, self.content_revision, self.scroll, self.cells@)
    }
}

pub open spec fn hover_opt_view(h: Option<LocalPathHover>) -> Option<HoverView> {
    match h {
        Some(h) => Some(h@),
        None => None,
    }
}

/// The part of the client shell's state that local path hovering reads.
#[derive(Clone, Debug)]
pub struct ClientShellState {
    pub active_endpoint_is_local: bool,
    pub mode: ClientShellMode,
    pub overlay_open: bool,
    pub popup_terminal_open: bool,
    pub endpoint_error: bool,
    pub pending_pane_surface: bool,
    pub pane_surface: Option<PaneSurfaceFrame>,
    /// The revision of the current layout snapshot, if there is one.
    pub snapshot_revision: Option<u64>,
    pub pane_hits: Vec<PaneHit>,
    pub local_path_hover: Option<LocalPathHover>,
}

/// Local paths are only interactive in terminal mode on a local endpoint,
/// with nothing covering the panes and the pane surface up to date.
pub open spec fn interaction_enabled(s: ClientShellState) -> bool {
    &&& s.active_endpoint_is_local
    &&& s.mode == ClientShellMode::Terminal
    &&& !s.overlay_open
    &&& !s.popup_terminal_open
    &&& !s.endpoint_error
    &&& !s.pending_pane_surface
}

/// Every pane hit rectangle ends within the coordinate range.
pub open spec fn hits_in_range(s: ClientShellState) -> bool {
    forall|t: int| 0 <= t < s.pane_hits@.len() ==> {
        &&& (#[trigger] s.pane_hits@[t]).inner_rect.x + s.pane_hits@[t].inner_rect.width <= 0x10000
        &&& s.pane_hits@[t].inner_rect.y + s.pane_hits@[t].inner_rect.height <= 0x10000
    }
}

/// The first non-popup pane hit at or after `t` that contains `(column, row)`.
pub open spec fn first_hit(hits: Seq<PaneHit>, column: int, row: int, t: int) -> Option<int>
    decreases hits.len() - t,
{
    if t < 0 || t >= hits.len() {
        None
    } else if !hits[t].popup && rect_contains(hits[t].inner_rect, column, row) {
        Some(t)
    } else {
        first_hit(hits, column, row, t + 1)
    }
}

/// The first surface pane at or after `t` with the given id.
pub open spec fn first_pane(panes: Seq<PaneSurfacePane>, id: Seq<char>, t: int) -> Option<int>
    decreases panes.len() - t,
{
    if t < 0 || t >= panes.len() {
        None
    } else if panes[t].pane_id@ == id {
        Some(t)
    } else {
        first_pane(panes, id, t + 1)
    }
}

/// The hover for the screen position `(column, row)`: the first pane hit
/// under it, its pane in a surface of the current layout with the same
/// size, and the path in that pane's surface under the position.
pub open spec fn match_at_point(s: ClientShellState, column: int, row: int) -> Option<HoverView> {
    if !interaction_enabled(s) {
        None
    } else {
        match s.pane_surface {
            None => None,
            Some(surface) => match s.snapshot_revision {
                None => None,
                Some(rev) => if rev != surface.projection_revision {
                    None
                } else {
                    match first_hit(s.pane_hits@, column, row, 0) {
                        None => None,
                        Some(hi) => {
                            let hit = s.pane_hits@[hi];
                            match first_pane(surface.panes@, hit.pane_id@, 0) {
                                None => None,
                                Some(pi) => {
                                    let pane = surface.panes@[pi];
                                    if pane.inner_rect.width != hit.inner_rect.width
                                        || pane.inner_rect.height != hit.inner_rect.height {
                                        None
                                    } else {
                                        match path_in_surface_spec(surface.frame, pane.inner_rect, hit.inner_rect, column, row) {
                                            None => None,
                                            Some((path, cells)) => Some((
                                                hit.pane_id@,
                                                path,
                                                hit.inner_rect,
                                                surface.boot_id@,
                                                pane.content_revision,
                                                pane.scroll,
                                                cells,
                                            )),
                                        }
                                    }
                                },
                            }
                        },
                    }
                },
            },
        }
    }
}

/// A hover still describes what is on screen: interaction is enabled, a
/// pane hit with its pane and area remains, the surface is the same boot and
/// matches the layout, and its pane has the same content, scroll and size.
pub open spec fn hover_is_current(s: ClientShellState, h: HoverView) -> bool {
    &&& interaction_enabled(s)
    &&& exists|t: int| 0 <= t < s.pane_hits@.len()
        && (#[trigger] s.pane_hits@[t]).pane_id@ == h.0 && s.pane_hits@[t].inner_rect == h.2
    &&& match s.pane_surface {
        None => false,
        Some(surface) => {
            &&& surface.boot_id@ == h.3
            &&& s.snapshot_revision == Some(surface.projection_revision)
            &&& exists|t: int| 0 <= t < surface.panes@.len() && {
                let pane = #[trigger] surface.panes@[t];
                &&& pane.pane_id@ == h.0
                &&& pane.content_revision == h.4
                &&& pane.scroll == h.5
                &&& pane.inner_rect.width == h.2.width
                &&& pane.inner_rect.height == h.2.height
            }
        },
    }
}

/// The hover that the pointer at `(column, row)` asks for: none unless the
/// pointer moved with Ctrl held; the same hover while the pointer stays on
/// its cells and it is current; otherwise the path under the pointer.
pub open spec fn next_hover(s: ClientShellState, ctrl_motion: bool, column: u16, row: u16) -> Option<HoverView> {
    if !ctrl_motion {
        None
    } else {
        match s.local_path_hover {
            Some(h) if hover_is_current(s, h@) && h.cells@.contains((column, row)) => Some(h@),
            _ => match_at_point(s, column as int, row as int),
        }
    }
}

/// The index of the frame cell that a hover position underlines, if any:
/// the position must lie in the frame and in the hover's area.
pub open spec fn underline_index(f: FrameData, area: Rect, p: (u16, u16)) -> Option<int> {
    let (x, y) = p;
    if x < f.width && y < f.height && rect_contains(area, x as int, y as int)
        && y * f.width + x < f.cells@.len() {
        Some(y * f.width + x)
    } else {
        None
    }
}

/// Cell `j` is underlined by one of the first `n` positions.
pub open spec fn underlined_by(f: FrameData, area: Rect, ps: Seq<(u16, u16)>, n: int, j: int) -> bool {
    exists|u: int| 0 <= u < n && #[trigger] underline_index(f, area, ps[u]) == Some(j)
}

pub open spec fn with_underline(c: CellData) -> CellData {
    CellData { modifier: c.modifier | UNDERLINED, ..c }
}

/// `g` is `f` with the cells at the positions underlined and nothing else
/// changed.
pub open spec fn underlined(f: FrameData, g: FrameData, area: Rect, ps: Seq<(u16, u16)>) -> bool {
    &&& g.width == f.width
    &&& g.height == f.height
    &&& g.hyperlinks == f.hyperlinks
    &&& g.cells@.len() == f.cells@.len()
    &&& forall|j: int| 0 <= j < f.cells@.len() ==> #[trigger] g.cells@[j] == if underlined_by(f, area, ps, ps.len() as int, j) {
        with_underline(f.cells@[j])
    } else {
        f.cells@[j]
    }
}

fn scroll_eq(a: Option<PaneSurfaceScrollMetrics>, b: Option<PaneSurfaceScrollMetrics>) -> (res: bool)
    ensures
        res == (a == b),
{
    match (a, b) {
        (Some(x), Some(y)) => x == y,
        (None, None) => true,
        _ => false,
    }
}

fn positions_eq(a: &Vec<(u16, u16)>, b: &Vec<(u16, u16)>) -> (res: bool)
    ensures
        res == (a@ == b@),
{
    if a.len() != b.len() {
        return false;
    }
    let mut i: usize = 0;
    while i < a.len()
        invariant
            a@.len() == b@.len(),
            i <= a@.len(),
            forall|t: int| 0 <= t < i ==> #[trigger] a@[t] == b@[t],
        decreases a@.len() - i,
    {
        if a[i].0 != b[i].0 || a[i].1 != b[i].1 {
            return false;
        }
        i = i + 1;
    }
    assert(a@ =~= b@);
    true
}

fn hover_eq(a: &LocalPathHover, b: &LocalPathHover) -> (res: bool)
    ensures
        res == (a@ == b@),
{
    a.pane_id == b.pane_id && a.path == b.path && a.area == b.area && a.boot_id == b.boot_id
        && a.content_revision == b.content_revision && scroll_eq(a.scroll, b.scroll)
        && positions_eq(&a.cells, &b.cells)
}

fn hover_opt_eq(a: &Option<LocalPathHover>, b: &Option<LocalPathHover>) -> (res: bool)
    ensures
        res == (hover_opt_view(*a) == hover_opt_view(*b)),
{
    match (a, b) {
        (Some(x), Some(y)) => hover_eq(x, y),
        (None, None) => true,
        _ => false,
    }
}

fn contains_position(ps: &Vec<(u16, u16)>, x: u16, y: u16) -> (res: bool)
    ensures
        res == ps@.contains((x, y)),
{
    let mut i: usize = 0;
    while i < ps.len()
        invariant
            i <= ps@.len(),
            forall|t: int| 0 <= t < i ==> #[trigger] ps@[t] != (x, y),
        decreases ps@.len() - i,
    {
        if ps[i].0 == x && ps[i].1 == y {
            assert(ps@[i as int] == (x, y));
            return true;
        }
        i = i + 1;
    }
    false
}

proof fn lemma_underline_twice(m: u16)
    ensures
        m | UNDERLINED | UNDERLINED == m | UNDERLINED,
{
    assert(m | 8u16 | 8u16 == m | 8u16) by (bit_vector);
}

/// The hover that a state draws: its hover, while that is current.
pub open spec fn drawn_hover(s: ClientShellState) -> Option<HoverView> {
    match s.local_path_hover {
        Some(h) if hover_is_current(s, h@) => Some(h@),
        _ => None,
    }
}

proof fn lemma_first_hit(hits: Seq<PaneHit>, column: int, row: int, t: int)
    ensures
        first_hit(hits, column, row, t) matches Some(i) ==> {
            &&& t <= i < hits.len()
            &&& !hits[i].popup
            &&& rect_contains(hits[i].inner_rect, column, row)
        },
    decreases hits.len() - t,
{
    if 0 <= t < hits.len() && !(!hits[t].popup && rect_contains(hits[t].inner_rect, column, row)) {
        lemma_first_hit(hits, column, row, t + 1);
    }
}

proof fn lemma_first_pane(panes: Seq<PaneSurfacePane>, id: Seq<char>, t: int)
    ensures
        first_pane(panes, id, t) matches Some(i) ==> t <= i < panes.len() && panes[i].pane_id@ == id,
    decreases panes.len() - t,
{
    if 0 <= t < panes.len() && panes[t].pane_id@ != id {
        lemma_first_pane(panes, id, t + 1);
    }
}

/// Local paths are inert unless the active endpoint is local, the shell is
/// in terminal mode, and no overlay, popup terminal, endpoint error or
/// pending surface is in the way: nothing is found, no hover is asked for,
/// and no hover counts as current.
pub proof fn law_paths_are_inert_while_covered(s: ClientShellState, ctrl_motion: bool, column: u16, row: u16, h: HoverView)
    requires
        !s.active_endpoint_is_local || s.mode != ClientShellMode::Terminal || s.overlay_open
            || s.popup_terminal_open || s.endpoint_error || s.pending_pane_surface,
    ensures
        match_at_point(s, column as int, row as int) is None,
        next_hover(s, ctrl_motion, column, row) is None,
        !hover_is_current(s, h),
{
}

/// A hover that the pointer asks for is current in the state it was asked
/// in, so it is drawn at once.
pub proof fn law_requested_hover_is_current(s: ClientShellState, ctrl_motion: bool, column: u16, row: u16)
    ensures
        next_hover(s, ctrl_motion, column, row) matches Some(h) ==> hover_is_current(s, h),
{
    if ctrl_motion {
        match s.local_path_hover {
            Some(h) if hover_is_current(s, h@) && h.cells@.contains((column, row)) => {},
            _ => {
                if let Some(h) = match_at_point(s, column as int, row as int) {
                    let surface = s.pane_surface->0;
                    let hi = first_hit(s.pane_hits@, column as int, row as int, 0)->0;
                    lemma_first_hit(s.pane_hits@, column as int, row as int, 0);
                    let hit = s.pane_hits@[hi];
                    let pi = first_pane(surface.panes@, hit.pane_id@, 0)->0;
                    lemma_first_pane(surface.panes@, hit.pane_id@, 0);
                    let pane = surface.panes@[pi];
                    assert(s.pane_hits@[hi].pane_id@ == h.0 && s.pane_hits@[hi].inner_rect == h.2);
                    assert(pane.pane_id@ == h.0 && pane.content_revision == h.4 && pane.scroll == h.5);
                }
            },
        }
    }
}

/// Repeating a pointer event changes nothing: once an update has installed
/// the hover the event asks for, the same event asks for that hover again.
pub proof fn law_repeated_event_is_stable(s: ClientShellState, updated: ClientShellState, ctrl_motion: bool, column: u16, row: u16)
    requires
        updated == (ClientShellState { local_path_hover: updated.local_path_hover, ..s }),
        hover_opt_view(updated.local_path_hover) == next_hover(s, ctrl_motion, column, row),
    ensures
        next_hover(updated, ctrl_motion, column, row) == next_hover(s, ctrl_motion, column, row),
{
    assert(match_at_point(updated, column as int, row as int) == match_at_point(s, column as int, row as int));
    if ctrl_motion {
        match updated.local_path_hover {
            Some(h) => {
                assert(hover_is_current(updated, h@) == hover_is_current(s, h@));
            },
            None => {},
        }
    }
}

/// Dropping stale hovers never changes what is drawn, and leaves no hover
/// that is not current.
pub proof fn law_clearing_keeps_drawing(s: ClientShellState, cleared: ClientShellState)
    requires
        cleared == (ClientShellState {
            local_path_hover: match s.local_path_hover {
                Some(h) if !hover_is_current(s, h@) => None,
                other => other,
            },
            ..s
        }),
    ensures
        drawn_hover(cleared) == drawn_hover(s),
        cleared.local_path_hover matches Some(h) ==> hover_is_current(cleared, h@),
{
    match s.local_path_hover {
        Some(h) => {
            assert(hover_is_current(cleared, h@) == hover_is_current(s, h@));
        },
        None => {},
    }
}

impl ClientShellState {
    pub fn local_path_interaction_enabled(&self) -> (res: bool)
        ensures
            res == interaction_enabled(*self),
    {
        self.active_endpoint_is_local && self.mode == ClientShellMode::Terminal && !self.overlay_open
            && !self.popup_terminal_open && !self.endpoint_error && !self.pending_pane_surface
    }

    fn first_hit_index(&self, column: u16, row: u16) -> (res: Option<usize>)
        ensures
            res matches Some(i) ==> first_hit(self.pane_hits@, column as int, row as int, 0) == Some(i as int)
                && i < self.pane_hits@.len(),
            res is None ==> first_hit(self.pane_hits@, column as int, row as int, 0) is None,
    {
        let mut t: usize = 0;
        while t < self.pane_hits.len()
            invariant
                t <= self.pane_hits@.len(),
                first_hit(self.pane_hits@, column as int, row as int, t as int) == first_hit(self.pane_hits@, column as int, row as int, 0),
            decreases self.pane_hits@.len() - t,
        {
            if !self.pane_hits[t].popup && self.pane_hits[t].inner_rect.contains(column, row) {
                return Some(t);
            }
            t = t + 1;
        }
        None
    }

    pub fn local_path_match_at_point(&self, column: u16, row: u16) -> (res: Option<LocalPathHover>)
        requires
            hits_in_range(*self),
        ensures
            hover_opt_view(res) == match_at_point(*self, column as int, row as int),
    {
        if !self.local_path_interaction_enabled() {
            return None;
        }
        let surface = match &self.pane_surface {
            Some(s) => s,
            None => return None,
        };
        let revision = match self.snapshot_revision {
            Some(r) => r,
            None => return None,
        };
        if revision != surface.projection_revision {
            return None;
        }
        let hi = match self.first_hit_index(column, row) {
            Some(i) => i,
            None => return None,
        };
        let hit = &self.pane_hits[hi];
        let mut pi: usize = 0;
        while pi < surface.panes.len() && !(surface.panes[pi].pane_id == hit.pane_id)
            invariant
                pi <= surface.panes@.len(),
                first_pane(surface.panes@, hit.pane_id@, pi as int) == first_pane(surface.panes@, hit.pane_id@, 0),
            decreases surface.panes@.len() - pi,
        {
            pi = pi + 1;
        }
        if pi == surface.panes.len() {
            return None;
        }
        let pane = &surface.panes[pi];
        if pane.inner_rect.width != hit.inner_rect.width || pane.inner_rect.height != hit.inner_rect.height {
            return None;
        }
        assert(self.pane_hits@[hi as int].inner_rect.x + self.pane_hits@[hi as int].inner_rect.width <= 0x10000);
        let (path, cells) = match path_in_surface(&surface.frame, pane.inner_rect, hit.inner_rect, column, row) {
            Some(found) => found,
            None => return None,
        };
        Some(LocalPathHover {
            pane_id: hit.pane_id.clone(),
            path,
            area: hit.inner_rect,
            boot_id: surface.boot_id.clone(),
            content_revision: pane.content_revision,
            scroll: pane.scroll,
            cells,
        })
    }

    /// The pane id and path under the screen position `(column, row)`.
    pub fn local_path_at_point(&self, column: u16, row: u16) -> (res: Option<(String, String)>)
        requires
            hits_in_range(*self),
        ensures
            res is Some <==> match_at_point(*self, column as int, row as int) is Some,
            res matches Some((pane, path)) ==> pane@ == (match_at_point(*self, column as int, row as int)->0).0
                && path@ == (match_at_point(*self, column as int, row as int)->0).1,
    {
        match self.local_path_match_at_point(column, row) {
            Some(matched) => Some((matched.pane_id, matched.path)),
            None => None,
        }
    }

    pub fn local_path_hover_is_current(&self, hover: &LocalPathHover) -> (res: bool)
        ensures
            res == hover_is_current(*self, hover@),
    {
        if !self.local_path_interaction_enabled() {
            return false;
        }
        let mut t: usize = 0;
        while t < self.pane_hits.len() && !(self.pane_hits[t].pane_id == hover.pane_id && self.pane_hits[t].inner_rect == hover.area)
            invariant
                t <= self.pane_hits@.len(),
                forall|u: int| 0 <= u < t ==> !((#[trigger] self.pane_hits@[u]).pane_id@ == hover.pane_id@
                    && self.pane_hits@[u].inner_rect == hover.area),
            decreases self.pane_hits@.len() - t,
        {
            t = t + 1;
        }
        if t == self.pane_hits.len() {
            return false;
        }
        assert(self.pane_hits@[t as int].pane_id@ == hover.pane_id@ && self.pane_hits@[t as int].inner_rect == hover.area);
        let surface = match &self.pane_surface {
            Some(s) => s,
            None => return false,
        };
        if !(surface.boot_id == hover.boot_id) {
            return false;
        }
        match self.snapshot_revision {
            Some(r) => if r != surface.projection_revision {
                return false;
            },
            None => return false,
        }
        let mut p: usize = 0;
        let ghost hit_t = t as int;
        while p < surface.panes.len()
            invariant
                p <= surface.panes@.len(),
                interaction_enabled(*self),
                0 <= hit_t < self.pane_hits@.len(),
                self.pane_hits@[hit_t].pane_id@ == hover.pane_id@,
                self.pane_hits@[hit_t].inner_rect == hover.area,
                self.pane_surface == Some(*surface),
                surface.boot_id@ == hover.boot_id@,
                self.snapshot_revision == Some(surface.projection_revision),
                forall|u: int| 0 <= u < p ==> !({
                    let pane = #[trigger] surface.panes@[u];
                    &&& pane.pane_id@ == hover.pane_id@
                    &&& pane.content_revision == hover.content_revision
                    &&& pane.scroll == hover.scroll
                    &&& pane.inner_rect.width == hover.area.width
                    &&& pane.inner_rect.height == hover.area.height
                }),
            decreases surface.panes@.len() - p,
        {
            let pane = &surface.panes[p];
            if pane.pane_id == hover.pane_id && pane.content_revision == hover.content_revision
                && scroll_eq(pane.scroll, hover.scroll) && pane.inner_rect.width == hover.area.width
                && pane.inner_rect.height == hover.area.height {
                assert({
                    let pane = surface.panes@[p as int];
                    &&& pane.pane_id@ == hover.pane_id@
                    &&& pane.content_revision == hover.content_revision
                    &&& pane.scroll == hover.scroll
                    &&& pane.inner_rect.width == hover.area.width
                    &&& pane.inner_rect.height == hover.area.height
                });
                return true;
            }
            p = p + 1;
        }
        false
    }

    /// Returns whether a repaint is needed. Work runs only on Ctrl+motion.
    pub fn update_local_path_hover(&mut self, ctrl_motion: bool, column: u16, row: u16) -> (repaint: bool)
        requires
            hits_in_range(*old(self)),
        ensures
            hover_opt_view(final(self).local_path_hover) == next_hover(*old(self), ctrl_motion, column, row),
            repaint == (hover_opt_view(old(self).local_path_hover) != next_hover(*old(self), ctrl_motion, column, row)),
            *final(self) == (ClientShellState { local_path_hover: final(self).local_path_hover, ..*old(self) }),
    {
        let next = if ctrl_motion {
            // Moving within the same unchanged path needs neither parsing nor allocation.
            let unchanged = match &self.local_path_hover {
                Some(hover) => self.local_path_hover_is_current(hover) && contains_position(&hover.cells, column, row),
                None => false,
            };
            if unchanged {
                return false;
            }
            self.local_path_match_at_point(column, row)
        } else {
            None
        };
        if hover_opt_eq(&self.local_path_hover, &next) {
            return false;
        }
        self.local_path_hover = next;
        true
    }

    /// Drops the hover once it no longer describes what is on screen.
    pub fn clear_stale_local_path_hover(&mut self)
        ensures
            *final(self) == (ClientShellState {
                local_path_hover: match old(self).local_path_hover {
                    Some(h) if !hover_is_current(*old(self), h@) => None,
                    other => other,
                },
                ..*old(self)
            }),
    {
        let stale = match &self.local_path_hover {
            Some(hover) => !self.local_path_hover_is_current(hover),
            None => false,
        };
        if stale {
            self.local_path_hover = None;
        }
    }

    /// Underlines the cells of a current hover in `frame`.
    pub fn render_local_path_hover(&self, frame: &mut FrameData)
        ensures
            match self.local_path_hover {
                Some(h) if hover_is_current(*self, h@) => underlined(*old(frame), *final(frame), h.area, h.cells@),
                _ => *final(frame) == *old(frame),
            },
    {
        let hover = match &self.local_path_hover {
            Some(h) => h,
            None => return,
        };
        if !self.local_path_hover_is_current(hover) {
            return;
        }
        let ghost f0 = *old(frame);
        let mut u: usize = 0;
        while u < hover.cells.len()
            invariant
                u <= hover.cells@.len(),
                frame.width == f0.width,
                frame.height == f0.height,
                frame.hyperlinks == f0.hyperlinks,
                frame.cells@.len() == f0.cells@.len(),
                forall|j: int| 0 <= j < f0.cells@.len() ==> #[trigger] frame.cells@[j] == if underlined_by(f0, hover.area, hover.cells@, u as int, j) {
                    with_underline(f0.cells@[j])
                } else {
                    f0.cells@[j]
                },
            decreases hover.cells@.len() - u,
        {
            let (x, y) = hover.cells[u];
            let ghost p = hover.cells@[u as int];
            let ghost prev = frame.cells@;
            let mut updated: Option<usize> = None;
            if x < frame.width && y < frame.height && hover.area.contains(x, y) {
                let ys = y as usize;
                let ws = frame.width as usize;
                assert(ys * ws <= 65535 * 65535) by (nonlinear_arith)
                    requires
                        ys <= 65535,
                        ws <= 65535,
                ;
                let index = ys * ws + x as usize;
                if index < frame.cells.len() {
                    let m = frame.cells[index].modifier;
                    frame.cells[index].modifier = m | UNDERLINED;
                    updated = Some(index);
                }
            }
            proof {
                match updated {
                    Some(index) => {
                        assert(underline_index(f0, hover.area, p) == Some(index as int));
                        assert(frame.cells@ == prev.update(index as int, CellData { modifier: prev[index as int].modifier | UNDERLINED, ..prev[index as int] }));
                    },
                    None => {
                        assert(underline_index(f0, hover.area, p) is None);
                        assert(frame.cells@ == prev);
                    },
                }
                assert forall|j: int| 0 <= j < f0.cells@.len() implies #[trigger] frame.cells@[j] == if underlined_by(f0, hover.area, hover.cells@, u + 1, j) {
                    with_underline(f0.cells@[j])
                } else {
                    f0.cells@[j]
                } by {
                    if underline_index(f0, hover.area, p) == Some(j) {
                        assert(underlined_by(f0, hover.area, hover.cells@, u + 1, j));
                        lemma_underline_twice(f0.cells@[j].modifier);
                    } else if underlined_by(f0, hover.area, hover.cells@, u as int, j) {
                        let w = choose|w: int| 0 <= w < u && #[trigger] underline_index(f0, hover.area, hover.cells@[w]) == Some(j);
                        assert(underlined_by(f0, hover.area, hover.cells@, u + 1, j));
                    } else {
                        assert(!underlined_by(f0, hover.area, hover.cells@, u + 1, j));
                    }
                }
            }
            u = u + 1;
        }
    }
}

} // verus!
