//! The state of a coaching session: which action is shown, what was searched for
//! it, and playback.

use vstd::prelude::*;

use crate::engine::cushion::Bounds;
use crate::model::math::DVec3;
use crate::model::scene::CueAction;
use crate::scalar::{num, Scalar, ZERO};
use crate::solver::choice::{Repair, Solution};

verus! {

/// A speed change (m/s) above this is worth advising: 0.1.
pub const ADVISE_SPEED: u64 = 0x3FB9_9999_9999_999A;

/// An aim change (degrees) above this is worth advising: 0.6.
pub const ADVISE_AIM: u64 = 0x3FE3_3333_3333_3333;

/// A tip change (fraction of the radius) above this is worth advising: 0.03.
pub const ADVISE_TIP: u64 = 0x3F9E_B851_EB85_1EB8;

/// A fit error (m) above this is of low confidence: 0.45.
pub const LOW_CONFIDENCE: u64 = 0x3FDC_CCCC_CCCC_CCCD;

/// A drift (s) above this is corrected while playing: 0.4.
pub const DRIFT_PLAYING: u64 = 0x3FD9_9999_9999_999A;

/// A drift (s) above this is corrected while paused: 0.04.
pub const DRIFT_PAUSED: u64 = 0x3FA4_7AE1_47AE_147B;

/// Which action the cue controls are showing: the reconstructed shot, its repaired
/// version, or the solver's best shot for this scene.
#[derive(Clone, Copy, Debug, PartialEq, Eq, Structural)]
pub enum ActionView {
    Shot,
    Repaired,
    Solved,
}

/// A search that a view needs before it can be shown.
#[derive(Clone, Copy, Debug, PartialEq, Eq, Structural)]
pub enum Search {
    Repair,
    Solve,
}

/// What the coach says under the views.
#[derive(Clone, Copy, Debug, PartialEq, Eq, Structural)]
pub enum Note {
    Blank,
    /// What the views are for.
    Hint,
    BestShot(Solution),
    /// No scoring shot was found for this layout.
    NoShot,
    Fix(Repair),
    AlreadyScores,
    /// No nearby shot scores: it was the wrong shot, not a mis-hit.
    NothingNear,
}

/// A coaching session.
#[derive(Clone, Copy, Debug, PartialEq, Eq)]
pub struct Session {
    pub playing: bool,
    pub playhead: Scalar,
    pub view: ActionView,
    /// The reconstructed action of the loaded shot.
    pub shot: Option<CueAction>,
    /// Whether the reconstruction scores: a made shot has nothing to repair.
    pub shot_scored: bool,
    /// What the last repair search found; none where none was made.
    pub repair: Option<Option<Repair>>,
    /// What the last solve found; none where none was made.
    pub solution: Option<Option<Solution>>,
    /// Ball being dragged (0 = cue).
    pub dragging: Option<usize>,
}

impl Session {
    /// The action a view shows, if it has one.
    pub open spec fn action_of(self, v: ActionView) -> Option<CueAction> {
        match v {
            ActionView::Shot => self.shot,
            ActionView::Repaired => match self.repair {
                Some(Some(r)) => Some(r.action),
                _ => None,
            },
            ActionView::Solved => match self.solution {
                Some(Some(s)) => Some(s.action),
                _ => None,
            },
        }
    }

    /// The session of the editor once a tracked shot is loaded.
    pub open spec fn with_shot(self, action: CueAction, scored: bool) -> Session {
        Session {
            playing: false,
            playhead: num(ZERO),
            view: ActionView::Shot,
            shot: Some(action),
            shot_scored: scored,
            repair: None,
            solution: None,
            ..self
        }
    }

    /// The session of the viewer once a fetched shot is shown.
    pub open spec fn with_fetched(self, action: CueAction, scored: bool) -> Session {
        Session {
            playing: true,
            playhead: num(ZERO),
            view: ActionView::Shot,
            shot: Some(action),
            shot_scored: scored,
            ..self
        }
    }

    /// The session once a plain scene is loaded.
    pub open spec fn with_scene(self) -> Session {
        Session {
            playing: false,
            playhead: num(ZERO),
            view: ActionView::Shot,
            shot: None,
            repair: None,
            solution: None,
            ..self
        }
    }

    /// The session with what a repair search found.
    pub open spec fn with_repair(self, found: Option<Repair>) -> Session {
        Session { repair: Some(found), ..self }
    }

    /// The session with what a solve found.
    pub open spec fn with_solution(self, found: Option<Solution>) -> Session {
        Session { solution: Some(found), ..self }
    }

    /// The session once the scene has changed.
    pub open spec fn with_edit(self) -> Session {
        Session { repair: None, solution: None, ..self }
    }

    /// The session that shows a view, if that has an action.
    pub open spec fn with_view(self, v: ActionView) -> Session {
        if self.action_of(v) is Some {
            Session { view: v, playing: false, playhead: num(ZERO), ..self }
        } else {
            self
        }
    }

    /// The search that a view of the editor needs.
    pub open spec fn editor_needs(self, v: ActionView) -> Option<Search> {
        match v {
            ActionView::Repaired => if self.repair is None {
                Some(Search::Repair)
            } else {
                None
            },
            ActionView::Solved => if self.action_of(v) is None {
                Some(Search::Solve)
            } else {
                None
            },
            ActionView::Shot => None,
        }
    }

    /// The search that a view of the viewer needs.
    pub open spec fn viewer_needs(self, v: ActionView) -> Option<Search> {
        match v {
            ActionView::Repaired => if self.repair is None {
                Some(Search::Repair)
            } else {
                None
            },
            ActionView::Solved => if self.solution is None {
                Some(Search::Solve)
            } else {
                None
            },
            ActionView::Shot => None,
        }
    }

    /// No search outlives what it was made for: once a shot or a scene is loaded in the
    /// editor, or the scene is changed, the views of the searches have nothing to show and
    /// need their search again.
    pub proof fn law_searches_do_not_linger(self, action: CueAction, scored: bool)
        ensures
            forall|s: Session|
                s == self.with_shot(action, scored) || s == self.with_scene() || s
                    == self.with_edit() ==> #[trigger] s.action_of(ActionView::Repaired) is None
                    && s.action_of(ActionView::Solved) is None && s.editor_needs(
                    ActionView::Repaired,
                ) == Some(Search::Repair) && s.editor_needs(ActionView::Solved) == Some(
                    Search::Solve,
                ) && s.viewer_needs(ActionView::Repaired) == Some(Search::Repair)
                    && s.viewer_needs(ActionView::Solved) == Some(Search::Solve),
            self.with_shot(action, scored).action_of(ActionView::Shot) == Some(action),
            self.with_scene().action_of(ActionView::Shot) is None,
            self.with_edit().action_of(ActionView::Shot) == self.action_of(ActionView::Shot),
            !self.with_shot(action, scored).playing && !self.with_scene().playing,
            self.with_shot(action, scored).shot_scored == scored,
    {
    }

    /// A shot that the viewer fetched plays at once, from its start and as reconstructed, and
    /// keeps the searches made since it was asked for.
    pub proof fn law_fetched_shot_plays(self, action: CueAction, scored: bool)
        ensures
            ({
                let s = self.with_fetched(action, scored);
                &&& s.playing && s.playhead.units() == 0 && s.view == ActionView::Shot
                &&& s.action_of(ActionView::Shot) == Some(action) && s.shot_scored == scored
                &&& s.action_of(ActionView::Repaired) == self.action_of(ActionView::Repaired)
                &&& s.action_of(ActionView::Solved) == self.action_of(ActionView::Solved)
            }),
    {
        assert(num(ZERO).magnitude() == 0);
        assert(num(ZERO).units() == 0);
    }

    /// What a search found is what its view shows, and the other views keep theirs; a repair
    /// is then not searched for again, a solution only by the editor and only if none was
    /// found.
    pub proof fn law_found_is_shown(self, repair: Option<Repair>, solution: Option<Solution>)
        ensures
            ({
                let s = self.with_repair(repair);
                &&& repair is Some ==> s.action_of(ActionView::Repaired) == Some(repair->0.action)
                &&& repair is None ==> s.action_of(ActionView::Repaired) is None
                &&& s.action_of(ActionView::Solved) == self.action_of(ActionView::Solved)
                &&& s.action_of(ActionView::Shot) == self.action_of(ActionView::Shot)
                &&& s.editor_needs(ActionView::Repaired) is None && s.viewer_needs(
                    ActionView::Repaired,
                ) is None
            }),
            ({
                let s = self.with_solution(solution);
                &&& solution is Some ==> s.action_of(ActionView::Solved) == Some(
                    solution->0.action,
                )
                &&& solution is None ==> s.action_of(ActionView::Solved) is None
                &&& s.action_of(ActionView::Repaired) == self.action_of(ActionView::Repaired)
                &&& s.action_of(ActionView::Shot) == self.action_of(ActionView::Shot)
                &&& s.viewer_needs(ActionView::Solved) is None
                &&& s.editor_needs(ActionView::Solved) is None <==> solution is Some
            }),
    {
    }

    /// Switching views loses nothing: there and back shows the same action as before, paused
    /// at the start; a view without an action changes nothing.
    pub proof fn law_views_switch_without_loss(self, v: ActionView, w: ActionView)
        ensures
            self.with_view(v).action_of(w) == self.action_of(w),
            self.action_of(v) is Some ==> self.with_view(v).view == v && !self.with_view(v).playing
                && self.with_view(v).playhead == num(ZERO),
            self.action_of(v) is None ==> self.with_view(v) == self,
            self.action_of(v) is Some && self.action_of(w) is Some ==> self.with_view(v).with_view(
                w,
            ) == self.with_view(w),
    {
    }

    /// The session once its playhead has been moved on.
    pub open spec fn ticked(self, next: Scalar, total: Scalar) -> Session {
        if self.playing && num(ZERO).less(total) {
            Session {
                playhead: if total.at_most(next) {
                    num(ZERO)
                } else {
                    next
                },
                ..self
            }
        } else {
            self
        }
    }

    /// Playback stays within the shot: from 0 on and short of the end, where it starts over.
    /// A paused session, or a shot without a length, stays where it is; and nothing but the
    /// playhead ever moves.
    pub proof fn law_playback_stays_within(self, next: Scalar, total: Scalar)
        requires
            num(ZERO).at_most(next),
        ensures
            ({
                let s = self.ticked(next, total);
                &&& self.playing && num(ZERO).less(total) ==> num(ZERO).at_most(s.playhead)
                    && s.playhead.less(total)
                &&& self.playing && num(ZERO).less(total) && next.less(total) ==> s.playhead
                    == next
                &&& self.playing && num(ZERO).less(total) && total.at_most(next) ==> s.playhead
                    == num(ZERO)
                &&& !self.playing || !num(ZERO).less(total) ==> s == self
                &&& s.playing == self.playing && s.view == self.view && s.shot == self.shot
                &&& s.repair == self.repair && s.solution == self.solution && s.dragging
                    == self.dragging && s.shot_scored == self.shot_scored
            }),
    {
    }

    pub fn new() -> (s: Session)
        ensures
            !s.playing,
            s.playhead == num(ZERO),
            s.view == ActionView::Shot,
            s.shot is None,
            !s.shot_scored,
            s.repair is None,
            s.solution is None,
            s.dragging is None,
    {
        Session {
            playing: false,
            playhead: num(ZERO),
            view: ActionView::Shot,
            shot: None,
            shot_scored: false,
            repair: None,
            solution: None,
            dragging: None,
        }
    }

    /// The editor loads a tracked shot with its reconstruction: earlier searches are
    /// forgotten, and the shot waits at its start.
    pub fn load_shot(&mut self, action: CueAction, scored: bool)
        ensures
            *final(self) == (Session {
                playing: false,
                playhead: num(ZERO),
                view: ActionView::Shot,
                shot: Some(action),
                shot_scored: scored,
                repair: None,
                solution: None,
                ..*old(self)
            }),
            *final(self) == old(self).with_shot(action, scored),
    {
        self.playing = false;
        self.playhead = num(ZERO);
        self.view = ActionView::Shot;
        self.shot = Some(action);
        self.shot_scored = scored;
        self.repair = None;
        self.solution = None;
    }

    /// The viewer shows a fetched shot with its reconstruction, which plays at once.
    /// Searches were forgotten when it was asked for.
    pub fn show_shot(&mut self, action: CueAction, scored: bool)
        ensures
            *final(self) == (Session {
                playing: true,
                playhead: num(ZERO),
                view: ActionView::Shot,
                shot: Some(action),
                shot_scored: scored,
                ..*old(self)
            }),
            *final(self) == old(self).with_fetched(action, scored),
    {
        self.playing = true;
        self.playhead = num(ZERO);
        self.view = ActionView::Shot;
        self.shot = Some(action);
        self.shot_scored = scored;
    }

    /// A plain scene is loaded: there is no tracked shot to return to.
    pub fn load_scene(&mut self)
        ensures
            *final(self) == (Session {
                playing: false,
                playhead: num(ZERO),
                view: ActionView::Shot,
                shot: None,
                repair: None,
                solution: None,
                ..*old(self)
            }),
            *final(self) == old(self).with_scene(),
    {
        self.playing = false;
        self.playhead = num(ZERO);
        self.view = ActionView::Shot;
        self.shot = None;
        self.repair = None;
        self.solution = None;
    }

    /// The search a view of the editor needs first: a repair is searched for once, a
    /// solution until one is found.
    pub fn editor_wants(&self, v: ActionView) -> (r: Option<Search>)
        ensures
            r == (match v {
                ActionView::Repaired => if self.repair is None {
                    Some(Search::Repair)
                } else {
                    None
                },
                ActionView::Solved => if self.action_of(v) is None {
                    Some(Search::Solve)
                } else {
                    None
                },
                ActionView::Shot => None,
            }),
            r == self.editor_needs(v),
    {
        match v {
            ActionView::Repaired => match self.repair {
                None => Some(Search::Repair),
                Some(_) => None,
            },
            ActionView::Solved => match self.solution {
                Some(Some(_)) => None,
                _ => Some(Search::Solve),
            },
            ActionView::Shot => None,
        }
    }

    /// The search a view of the viewer needs first: each is made once, whatever it finds.
    pub fn viewer_wants(&self, v: ActionView) -> (r: Option<Search>)
        ensures
            r == (match v {
                ActionView::Repaired => if self.repair is None {
                    Some(Search::Repair)
                } else {
                    None
                },
                ActionView::Solved => if self.solution is None {
                    Some(Search::Solve)
                } else {
                    None
                },
                ActionView::Shot => None,
            }),
            r == self.viewer_needs(v),
    {
        match v {
            ActionView::Repaired => match self.repair {
                None => Some(Search::Repair),
                Some(_) => None,
            },
            ActionView::Solved => match self.solution {
                None => Some(Search::Solve),
                Some(_) => None,
            },
            ActionView::Shot => None,
        }
    }

    /// Keep what a repair search found.
    pub fn found_repair(&mut self, found: Option<Repair>)
        ensures
            *final(self) == (Session { repair: Some(found), ..*old(self) }),
            *final(self) == old(self).with_repair(found),
    {
        self.repair = Some(found);
    }

    /// Keep what a solve found.
    pub fn found_solution(&mut self, found: Option<Solution>)
        ensures
            *final(self) == (Session { solution: Some(found), ..*old(self) }),
            *final(self) == old(self).with_solution(found),
    {
        self.solution = Some(found);
    }

    /// Switch which action the controls show, and return it. Nothing changes where
    /// the view has no action.
    pub fn show_view(&mut self, v: ActionView) -> (a: Option<CueAction>)
        ensures
            a == old(self).action_of(v),
            a is None ==> *final(self) == *old(self),
            a is Some ==> *final(self) == (Session {
                view: v,
                playing: false,
                playhead: num(ZERO),
                ..*old(self)
            }),
            forall|w: ActionView| #[trigger] final(self).action_of(w) == old(self).action_of(w),
            *final(self) == old(self).with_view(v),
    {
        let a: Option<CueAction> = match v {
            ActionView::Shot => self.shot,
            ActionView::Repaired => match self.repair {
                Some(Some(r)) => Some(r.action),
                _ => None,
            },
            ActionView::Solved => match self.solution {
                Some(Some(s)) => Some(s.action),
                _ => None,
            },
        };
        if a.is_some() {
            self.view = v;
            self.playing = false;
            self.playhead = num(ZERO);
        }
        a
    }

    /// The scene changed under the searches: they must not linger.
    pub fn scene_edited(&mut self)
        ensures
            *final(self) == (Session { repair: None, solution: None, ..*old(self) }),
            *final(self) == old(self).with_edit(),
    {
        self.repair = None;
        self.solution = None;
    }

    /// Stop playback and return to the start.
    pub fn rewind(&mut self)
        ensures
            *final(self) == (Session { playing: false, playhead: num(ZERO), ..*old(self) }),
    {
        self.playing = false;
        self.playhead = num(ZERO);
    }

    /// A drag begins on a ball, or on none: playback stops at the start.
    pub fn grab(&mut self, ball: Option<usize>)
        ensures
            *final(self) == (Session {
                playing: false,
                playhead: num(ZERO),
                dragging: ball,
                ..*old(self)
            }),
    {
        self.playing = false;
        self.playhead = num(ZERO);
        self.dragging = ball;
    }

    pub fn release(&mut self)
        ensures
            *final(self) == (Session { dragging: None, ..*old(self) }),
    {
        self.dragging = None;
    }

    pub fn toggle_play(&mut self)
        ensures
            *final(self) == (Session { playing: !old(self).playing, ..*old(self) }),
    {
        self.playing = !self.playing;
    }

    /// Move the playhead to `next` while playing; past the end it starts over.
    /// Whether it moved.
    pub fn tick(&mut self, next: Scalar, total: Scalar) -> (moved: bool)
        ensures
            moved == (old(self).playing && num(ZERO).less(total)),
            !moved ==> *final(self) == *old(self),
            moved ==> *final(self) == (Session {
                playhead: if total.at_most(next) {
                    num(ZERO)
                } else {
                    next
                },
                ..*old(self)
            }),
            *final(self) == old(self).ticked(next, total),
    {
        if self.playing && total.gt(num(ZERO)) {
            self.playhead = if next.ge(total) {
                num(ZERO)
            } else {
                next
            };
            true
        } else {
            false
        }
    }

    /// What the editor says under its views.
    pub fn editor_note(&self) -> (n: Note)
        ensures
            n == (match self.view {
                ActionView::Solved => match self.solution {
                    Some(Some(s)) => Note::BestShot(s),
                    _ => Note::Blank,
                },
                ActionView::Repaired => match self.repair {
                    Some(Some(r)) => Note::Fix(r),
                    _ => Note::Blank,
                },
                ActionView::Shot => match self.repair {
                    Some(None) => Note::NothingNear,
                    Some(Some(r)) => if r.already_scores {
                        Note::AlreadyScores
                    } else {
                        Note::Hint
                    },
                    None => Note::Hint,
                },
            }),
    {
        match self.view {
            ActionView::Solved => match self.solution {
                Some(Some(s)) => Note::BestShot(s),
                _ => Note::Blank,
            },
            ActionView::Repaired => match self.repair {
                Some(Some(r)) => Note::Fix(r),
                _ => Note::Blank,
            },
            ActionView::Shot => match self.repair {
                Some(None) => Note::NothingNear,
                Some(Some(r)) => if r.already_scores {
                    Note::AlreadyScores
                } else {
                    Note::Hint
                },
                None => Note::Hint,
            },
        }
    }

    /// What the viewer says under its views.
    pub fn viewer_note(&self) -> (n: Note)
        ensures
            n == (match self.view {
                ActionView::Solved => match self.solution {
                    Some(Some(s)) => Note::BestShot(s),
                    Some(None) => Note::NoShot,
                    None => Note::Blank,
                },
                ActionView::Repaired => match self.repair {
                    Some(Some(r)) => if r.already_scores {
                        Note::AlreadyScores
                    } else {
                        Note::Fix(r)
                    },
                    Some(None) => Note::NothingNear,
                    None => Note::Blank,
                },
                ActionView::Shot => Note::Hint,
            }),
    {
        match self.view {
            ActionView::Solved => match self.solution {
                Some(Some(s)) => Note::BestShot(s),
                Some(None) => Note::NoShot,
                None => Note::Blank,
            },
            ActionView::Repaired => match self.repair {
                Some(Some(r)) => if r.already_scores {
                    Note::AlreadyScores
                } else {
                    Note::Fix(r)
                },
                Some(None) => Note::NothingNear,
                None => Note::Blank,
            },
            ActionView::Shot => Note::Hint,
        }
    }
}

impl Default for Session {
    fn default() -> (s: Session)
        ensures
            !s.playing,
            s.playhead == num(ZERO),
            s.view == ActionView::Shot,
            s.shot is None,
            !s.shot_scored,
            s.repair is None,
            s.solution is None,
            s.dragging is None,
    {
        Session::new()
    }
}

/// One line of advice.
#[derive(Clone, Copy, Debug, PartialEq, Eq, Structural)]
pub enum Advice {
    Harder,
    Softer,
    TurnAim,
    MoreSide,
    LessSide,
    MoreFollow,
    MoreDraw,
    /// Nothing matters enough: almost there.
    AlmostThere,
}

/// An adjustment as advice, where it matters.
pub open spec fn advised(d: Scalar, least: Scalar, up: Advice, down: Advice) -> Seq<Advice> {
    if least.less(d.unsigned()) {
        if num(ZERO).less(d) {
            seq![up]
        } else {
            seq![down]
        }
    } else {
        seq![]
    }
}

/// The advice of a repair: only the adjustments that actually matter.
pub open spec fn advice_of(
    d_speed: Scalar,
    d_aim_deg: Scalar,
    d_english: Scalar,
    d_follow: Scalar,
) -> Seq<Advice> {
    let all = advised(d_speed, num(ADVISE_SPEED), Advice::Harder, Advice::Softer) + advised(
        d_aim_deg,
        num(ADVISE_AIM),
        Advice::TurnAim,
        Advice::TurnAim,
    ) + advised(d_english, num(ADVISE_TIP), Advice::MoreSide, Advice::LessSide) + advised(
        d_follow,
        num(ADVISE_TIP),
        Advice::MoreFollow,
        Advice::MoreDraw,
    );
    if all.len() == 0 {
        seq![Advice::AlmostThere]
    } else {
        all
    }
}

fn advise(out: &mut Vec<Advice>, d: Scalar, least: Scalar, up: Advice, down: Advice)
    ensures
        final(out)@ == old(out)@ + advised(d, least, up, down),
{
    if d.abs().gt(least) {
        if d.gt(num(ZERO)) {
            out.push(up);
        } else {
            out.push(down);
        }
    }
    assert(out@ =~= old(out)@ + advised(d, least, up, down));
}

/// Turn a repair's numeric deltas into coaching lines.
pub fn repair_advice(d_speed: Scalar, d_aim_deg: Scalar, d_english: Scalar, d_follow: Scalar) -> (r:
    Vec<Advice>)
    ensures
        r@ == advice_of(d_speed, d_aim_deg, d_english, d_follow),
{
    let mut out: Vec<Advice> = Vec::new();
    advise(&mut out, d_speed, num(ADVISE_SPEED), Advice::Harder, Advice::Softer);
    advise(&mut out, d_aim_deg, num(ADVISE_AIM), Advice::TurnAim, Advice::TurnAim);
    advise(&mut out, d_english, num(ADVISE_TIP), Advice::MoreSide, Advice::LessSide);
    advise(&mut out, d_follow, num(ADVISE_TIP), Advice::MoreFollow, Advice::MoreDraw);
    if out.len() == 0 {
        out.push(Advice::AlmostThere);
    }
    assert(out@ =~= advice_of(d_speed, d_aim_deg, d_english, d_follow));
    out
}

/// Whether a reconstruction with this fit error is of low confidence.
pub fn low_confidence(error: Scalar) -> (r: bool)
    ensures
        r == num(LOW_CONFIDENCE).less(error),
{
    error.gt(num(LOW_CONFIDENCE))
}

/// Whether a distance is within reach, the border included or not.
pub open spec fn within_reach(d: Scalar, reach: Scalar, border: bool) -> bool {
    if border {
        d.at_most(reach)
    } else {
        d.less(reach)
    }
}

/// Whether ball `k` is the nearest within reach; the first of equally near ones.
pub open spec fn grabbed_at(dists: Seq<Scalar>, reach: Scalar, border: bool, k: int) -> bool {
    &&& 0 <= k < dists.len()
    &&& within_reach(dists[k], reach, border)
    &&& forall|j: int|
        0 <= j < dists.len() && within_reach(#[trigger] dists[j], reach, border)
            ==> dists[k].rank() <= dists[j].rank() && (j < k ==> dists[k].rank() < dists[j].rank())
}

/// The ball a pointer grabs, from its distances to all of them.
pub fn grabbed_ball(dists: &[Scalar], reach: Scalar, border: bool) -> (r: Option<usize>)
    ensures
        match r {
            Some(k) => grabbed_at(dists@, reach, border, k as int),
            None => forall|k: int|
                0 <= k < dists@.len() ==> !within_reach(#[trigger] dists@[k], reach, border),
        },
{
    let mut best: Option<usize> = None;
    for k in 0..dists.len()
        invariant
            match best {
                Some(b) => {
                    &&& b < k
                    &&& within_reach(dists@[b as int], reach, border)
                    &&& forall|j: int|
                        0 <= j < k && within_reach(#[trigger] dists@[j], reach, border)
                            ==> dists@[b as int].rank() <= dists@[j].rank() && (j < b
                            ==> dists@[b as int].rank() < dists@[j].rank())
                },
                None => forall|j: int|
                    0 <= j < k ==> !within_reach(#[trigger] dists@[j], reach, border),
            },
    {
        let d: Scalar = dists[k];
        let inside: bool = if border {
            d.le(reach)
        } else {
            d.lt(reach)
        };
        if inside {
            let nearer: bool = match best {
                Some(b) => d.ranks_before(dists[b]),
                None => true,
            };
            if nearer {
                best = Some(k);
            }
        }
    }
    best
}

/// A place kept on the table, at height `z`.
pub fn confine(x: Scalar, y: Scalar, z: Scalar, b: Bounds) -> (p: DVec3)
    requires
        b.min_x.at_most(b.max_x),
        b.min_y.at_most(b.max_y),
    ensures
        p.x == x.clamped(b.min_x, b.max_x),
        p.y == y.clamped(b.min_y, b.max_y),
        p.z == z,
        !x.nan() ==> b.min_x.at_most(p.x) && p.x.at_most(b.max_x),
        !y.nan() ==> b.min_y.at_most(p.y) && p.y.at_most(b.max_y),
        b.min_x.at_most(x) && x.at_most(b.max_x) ==> p.x == x,
        b.min_y.at_most(y) && y.at_most(b.max_y) ==> p.y == y,
{
    DVec3::new(x.clamp(b.min_x, b.max_x), y.clamp(b.min_y, b.max_y), z)
}

/// What keeps a video in step with the playhead.
#[derive(Clone, Copy, Debug, PartialEq, Eq, Structural)]
pub struct VideoSync {
    pub set_rate: bool,
    pub play: bool,
    pub pause: bool,
    pub seek: bool,
}

/// Decide what keeps a video in step: while playing it is sought only on real
/// drift, as a seek mid-play stutters.
pub fn sync_video(playing: bool, paused: bool, drift: Scalar) -> (s: VideoSync)
    ensures
        s == (VideoSync {
            set_rate: playing,
            play: playing && paused,
            pause: !playing && !paused,
            seek: if playing {
                num(DRIFT_PLAYING).less(drift)
            } else {
                num(DRIFT_PAUSED).less(drift)
            },
        }),
{
    VideoSync {
        set_rate: playing,
        play: playing && paused,
        pause: !playing && !paused,
        seek: if playing {
            drift.gt(num(DRIFT_PLAYING))
        } else {
            drift.gt(num(DRIFT_PAUSED))
        },
    }
}

/// The advice names a change exactly if it matters, and in its own direction: harder or
/// softer, turn, more or less side, follow or draw; and where none does, that it is almost
/// there.
pub proof fn law_advice_names_what_matters(
    d_speed: Scalar,
    d_aim_deg: Scalar,
    d_english: Scalar,
    d_follow: Scalar,
)
    ensures
        ({
            let r = advice_of(d_speed, d_aim_deg, d_english, d_follow);
            let speed = num(ADVISE_SPEED).less(d_speed.unsigned());
            let aim = num(ADVISE_AIM).less(d_aim_deg.unsigned());
            let side = num(ADVISE_TIP).less(d_english.unsigned());
            let tip = num(ADVISE_TIP).less(d_follow.unsigned());
            &&& r.contains(Advice::Harder) <==> speed && num(ZERO).less(d_speed)
            &&& r.contains(Advice::Softer) <==> speed && !num(ZERO).less(d_speed)
            &&& r.contains(Advice::TurnAim) <==> aim
            &&& r.contains(Advice::MoreSide) <==> side && num(ZERO).less(d_english)
            &&& r.contains(Advice::LessSide) <==> side && !num(ZERO).less(d_english)
            &&& r.contains(Advice::MoreFollow) <==> tip && num(ZERO).less(d_follow)
            &&& r.contains(Advice::MoreDraw) <==> tip && !num(ZERO).less(d_follow)
            &&& r.contains(Advice::AlmostThere) <==> !speed && !aim && !side && !tip
            &&& r.no_duplicates()
        }),
{
    let a = advised(d_speed, num(ADVISE_SPEED), Advice::Harder, Advice::Softer);
    let b = advised(d_aim_deg, num(ADVISE_AIM), Advice::TurnAim, Advice::TurnAim);
    let c = advised(d_english, num(ADVISE_TIP), Advice::MoreSide, Advice::LessSide);
    let d = advised(d_follow, num(ADVISE_TIP), Advice::MoreFollow, Advice::MoreDraw);
    let all = a + b + c + d;
    let r = advice_of(d_speed, d_aim_deg, d_english, d_follow);
    assert(a.len() == 1 ==> all[0] == a[0]);
    assert(b.len() == 1 ==> all[a.len() as int] == b[0]);
    assert(c.len() == 1 ==> all[(a.len() + b.len()) as int] == c[0]);
    assert(d.len() == 1 ==> all[(a.len() + b.len() + c.len()) as int] == d[0]);
    if all.len() == 0 {
        assert(r[0] == Advice::AlmostThere);
    } else {
        assert(r == all);
    }
}

/// Each view shows its own action: the reconstruction, what the repair search found, what the
/// solve found; a view whose search found nothing shows none.
pub proof fn law_views_show_their_own(s: Session)
    ensures
        s.action_of(ActionView::Shot) == s.shot,
        s.repair is None || s.repair->0 is None ==> s.action_of(ActionView::Repaired) is None,
        s.repair is Some && s.repair->0 is Some ==> s.action_of(ActionView::Repaired) == Some(
            (s.repair->0)->0.action,
        ),
        s.solution is None || s.solution->0 is None ==> s.action_of(ActionView::Solved) is None,
        s.solution is Some && s.solution->0 is Some ==> s.action_of(ActionView::Solved) == Some(
            (s.solution->0)->0.action,
        ),
{
}

/// A pointer grabs a ball within reach, and no ball within reach is nearer to it.
pub proof fn law_grabbed_ball_is_nearest(
    dists: Seq<Scalar>,
    reach: Scalar,
    border: bool,
    k: int,
    j: int,
)
    requires
        grabbed_at(dists, reach, border, k),
        0 <= j < dists.len(),
    ensures
        0 <= k < dists.len(),
        dists[k].at_most(reach),
        !border ==> dists[k].less(reach),
        dists[j].less(reach) || (border && dists[j].at_most(reach)) ==> !dists[j].less(dists[k]),
{
    assert(within_reach(dists[j], reach, border) || !within_reach(dists[j], reach, border));
}

} // verus!
