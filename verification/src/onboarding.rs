//! The first-launch tour: a short run of cards, each anchored to a part of
//! the window, advanced with "Next", dismissed with "Skip". Finishing or
//! skipping asks for the dismissal to be remembered.

use vstd::prelude::*;

verus! {

/// The part of the window a tour card points at.
#[derive(Clone, Copy, PartialEq, Eq, Debug, Structural)]
pub enum AnchorId {
    Viewport,
    ToolRail,
    ColorPalette,
    GizmoCube,
}

/// One card of the tour.
#[derive(Clone, Copy, Debug)]
pub struct TourStep {
    pub anchor: AnchorId,
    pub title: &'static str,
    pub body: &'static str,
}

/// Number of cards in the tour.
pub const TOUR_LEN: usize = 4;

/// The anchor of card `i`.
pub open spec fn step_anchor(i: int) -> AnchorId {
    if i == 0 {
        AnchorId::Viewport
    } else if i == 1 {
        AnchorId::ToolRail
    } else if i == 2 {
        AnchorId::ColorPalette
    } else {
        AnchorId::GizmoCube
    }
}

/// The title of card `i`.
pub open spec fn step_title(i: int) -> Seq<char> {
    if i == 0 {
        "Paint and orbit"@
    } else if i == 1 {
        "Tools"@
    } else if i == 2 {
        "Color and palette"@
    } else {
        "Reframe the model"@
    }
}

/// The text of card `i`.
pub open spec fn step_body(i: int) -> Seq<char> {
    if i == 0 {
        "Left-click to paint voxels. Right-drag to orbit, scroll to zoom."@
    } else if i == 1 {
        "Brush, Erase, Paint, Pick, and Shape \u{2014} keys B/E/P/I/S. Long-press Shape for rect, ellipse, line."@
    } else if i == 2 {
        "Pick a color or save favorites to the palette. Alt-click the eyedropper to keep sampling without leaving your tool."@
    } else {
        "Click a face of the gizmo to snap the camera. Cmd+0 (Ctrl+0) fits the whole model."@
    }
}

/// Card `i` of the tour, `None` past the last one.
pub fn tour_step(i: usize) -> (r: Option<TourStep>)
    ensures
        r is Some <==> i < TOUR_LEN,
        r matches Some(s) ==> s.anchor == step_anchor(i as int) && s.title@ == step_title(i as int) && s.body@
            == step_body(i as int),
        r matches Some(s) ==> 0 < s.title@.len() <= 40 && 0 < s.body@.len() <= 140,
{
    if i == 0 {
        let t = "Paint and orbit";
        let b = "Left-click to paint voxels. Right-drag to orbit, scroll to zoom.";
        proof {
            reveal_strlit("Paint and orbit");
            reveal_strlit("Left-click to paint voxels. Right-drag to orbit, scroll to zoom.");
        }
        Some(TourStep { anchor: AnchorId::Viewport, title: t, body: b })
    } else if i == 1 {
        let t = "Tools";
        let b = "Brush, Erase, Paint, Pick, and Shape \u{2014} keys B/E/P/I/S. Long-press Shape for rect, ellipse, line.";
        proof {
            reveal_strlit("Tools");
            reveal_strlit(
                "Brush, Erase, Paint, Pick, and Shape \u{2014} keys B/E/P/I/S. Long-press Shape for rect, ellipse, line.",
            );
        }
        Some(TourStep { anchor: AnchorId::ToolRail, title: t, body: b })
    } else if i == 2 {
        let t = "Color and palette";
        let b = "Pick a color or save favorites to the palette. Alt-click the eyedropper to keep sampling without leaving your tool.";
        proof {
            reveal_strlit("Color and palette");
            reveal_strlit(
                "Pick a color or save favorites to the palette. Alt-click the eyedropper to keep sampling without leaving your tool.",
            );
        }
        Some(TourStep { anchor: AnchorId::ColorPalette, title: t, body: b })
    } else if i == 3 {
        let t = "Reframe the model";
        let b = "Click a face of the gizmo to snap the camera. Cmd+0 (Ctrl+0) fits the whole model.";
        proof {
            reveal_strlit("Reframe the model");
            reveal_strlit(
                "Click a face of the gizmo to snap the camera. Cmd+0 (Ctrl+0) fits the whole model.",
            );
        }
        Some(TourStep { anchor: AnchorId::GizmoCube, title: t, body: b })
    } else {
        None
    }
}

/// Where the tour stands.
pub struct Onboarding {
    /// A card is showing.
    pub active: bool,
    /// The card showing, while `active`.
    pub step: usize,
    /// The window has laid out the widgets the cards point at.
    pub anchors_ready: bool,
    /// The tour ended and that should be remembered.
    pub pending_persist: bool,
    /// The launch-time check has run.
    pub autostart_fired: bool,
}

impl Default for Onboarding {
    fn default() -> (r: Self)
        ensures
            !r.active,
            r.step == 0,
            !r.anchors_ready,
            !r.pending_persist,
            !r.autostart_fired,
    {
        Onboarding {
            active: false,
            step: 0,
            anchors_ready: false,
            pending_persist: false,
            autostart_fired: false,
        }
    }
}

/// The state after "Next": the following card, or the end of the tour after
/// the last one; nothing while no tour runs.
pub open spec fn after_next(o: Onboarding) -> Onboarding {
    if !o.active {
        o
    } else if o.step + 1 >= TOUR_LEN {
        after_finish(o)
    } else {
        Onboarding { step: (o.step + 1) as usize, ..o }
    }
}

/// The state after the tour ends: no card, back at the first, and the
/// dismissal waiting to be remembered.
pub open spec fn after_finish(o: Onboarding) -> Onboarding {
    Onboarding { active: false, step: 0, pending_persist: true, ..o }
}

/// The state after "Skip": the end of the tour, if one runs.
pub open spec fn after_skip(o: Onboarding) -> Onboarding {
    if !o.active {
        o
    } else {
        after_finish(o)
    }
}

/// The state after `k` presses of "Next".
pub open spec fn after_nexts(o: Onboarding, k: nat) -> Onboarding
    decreases k,
{
    if k == 0 {
        o
    } else {
        after_next(after_nexts(o, (k - 1) as nat))
    }
}

impl Onboarding {
    /// Shows the first card.
    pub fn start(&mut self)
        ensures
            *final(self) == (Onboarding { active: true, step: 0, ..*old(self) }),
    {
        self.active = true;
        self.step = 0;
    }

    /// The card showing, if any.
    pub fn current(&self) -> (r: Option<TourStep>)
        ensures
            r is Some <==> self.active && self.step < TOUR_LEN,
            r matches Some(s) ==> s.anchor == step_anchor(self.step as int),
    {
        if self.active {
            tour_step(self.step)
        } else {
            None
        }
    }

    /// Moves to the next card; after the last one the tour ends.
    pub fn next(&mut self)
        requires
            old(self).active ==> old(self).step < usize::MAX,
        ensures
            *final(self) == after_next(*old(self)),
    {
        if !self.active {
            return;
        }
        if self.step + 1 >= TOUR_LEN {
            self.finish();
        } else {
            self.step += 1;
        }
    }

    /// Ends the tour at once.
    pub fn skip(&mut self)
        ensures
            *final(self) == after_skip(*old(self)),
    {
        if !self.active {
            return;
        }
        self.finish();
    }

    /// No card is showing.
    pub fn is_done(&self) -> (r: bool)
        ensures
            r == !self.active,
    {
        !self.active
    }

    fn finish(&mut self)
        ensures
            *final(self) == after_finish(*old(self)),
    {
        self.active = false;
        self.step = 0;
        self.pending_persist = true;
    }

    /// The launch-time check, run each frame: once the anchors are laid out
    /// it fires a single time, and starts the tour unless it was seen before
    /// or a dialog is open.
    pub fn autostart(&mut self, seen: bool, dialog_open: bool)
        ensures
            *final(self) == (if old(self).autostart_fired || !old(self).anchors_ready {
                *old(self)
            } else if seen || dialog_open {
                Onboarding { autostart_fired: true, ..*old(self) }
            } else {
                Onboarding { autostart_fired: true, active: true, step: 0, ..*old(self) }
            }),
    {
        if self.autostart_fired {
            return;
        }
        if !self.anchors_ready {
            return;
        }
        self.autostart_fired = true;
        if seen {
            return;
        }
        if dialog_open {
            return;
        }
        self.start();
    }
}

/// From the first card, each press of "Next" shows the following card, and
/// the press on the last card ends the tour and asks for the dismissal to be
/// remembered.
pub proof fn law_tour_runs_in_order(o: Onboarding, k: nat)
    requires
        o.active,
        o.step == 0,
        k <= TOUR_LEN,
    ensures
        k < TOUR_LEN ==> after_nexts(o, k) == (Onboarding { step: k as usize, ..o }),
        k == TOUR_LEN ==> after_nexts(o, k) == after_finish(o),
    decreases k,
{
    if k > 0 {
        law_tour_runs_in_order(o, (k - 1) as nat);
    }
}

/// Once the tour has ended, "Next" and "Skip" change nothing.
pub proof fn law_ended_tour_is_inert(o: Onboarding)
    requires
        !o.active,
    ensures
        after_next(o) == o,
        after_skip(o) == o,
{
}

} // verus!
