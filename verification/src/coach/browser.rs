//! Browsing a match: games, shots, who took them and whether they scored.

use vstd::prelude::*;

use crate::coach::session::ActionView;
use crate::files::shot::{color_named, Text};
use crate::model::ball::BallColor;
use crate::text::{chars_of, copy, same_text, trim, trimmed};

verus! {

/// The player who took a shot.
#[derive(Clone, Copy, Debug, PartialEq, Eq, Structural)]
pub enum Player {
    Left,
    Right,
    Unknown,
}

/// What the scoreboard says of a shot.
#[derive(Clone, Copy, Debug, PartialEq, Eq, Structural)]
pub enum Verdict {
    Make,
    Miss,
    /// The scoreboard says something else.
    Other,
    /// The scoreboard says nothing.
    Unread,
}

/// The player a name stands for.
pub fn player_named(name: Option<&Text>) -> (p: Player)
    ensures
        p == (match name {
            None => Player::Unknown,
            Some(t) => if t@ == "left"@ {
                Player::Left
            } else if t@ == "right"@ {
                Player::Right
            } else {
                Player::Unknown
            },
        }),
{
    match name {
        None => Player::Unknown,
        Some(t) => {
            if same_text(t.as_slice(), chars_of("left").as_slice()) {
                Player::Left
            } else if same_text(t.as_slice(), chars_of("right").as_slice()) {
                Player::Right
            } else {
                Player::Unknown
            }
        },
    }
}

/// The verdict a word stands for.
pub fn verdict_named(word: Option<&Text>) -> (v: Verdict)
    ensures
        v == (match word {
            None => Verdict::Unread,
            Some(t) => if t@ == "make"@ {
                Verdict::Make
            } else if t@ == "miss"@ {
                Verdict::Miss
            } else {
                Verdict::Other
            },
        }),
{
    match word {
        None => Verdict::Unread,
        Some(t) => {
            if same_text(t.as_slice(), chars_of("make").as_slice()) {
                Verdict::Make
            } else if same_text(t.as_slice(), chars_of("miss").as_slice()) {
                Verdict::Miss
            } else {
                Verdict::Other
            }
        },
    }
}

/// A shot in a list.
#[derive(Clone, Copy, Debug, PartialEq, Eq, Structural)]
pub struct Listed {
    pub player: Player,
    pub verdict: Verdict,
}

/// How many shots of the first `n` a player took, or made.
pub open spec fn taken_among(shots: Seq<Listed>, player: Player, made: bool, n: int) -> nat
    decreases n,
{
    if n <= 0 {
        0
    } else {
        taken_among(shots, player, made, n - 1) + if shots[n - 1].player == player && (made
            ==> shots[n - 1].verdict == Verdict::Make) {
            1nat
        } else {
            0nat
        }
    }
}

/// Make totals per player.
#[derive(Clone, Copy, Debug, PartialEq, Eq, Structural)]
pub struct Totals {
    pub left_made: usize,
    pub left_taken: usize,
    pub right_made: usize,
    pub right_taken: usize,
}

/// Make totals per player; none where the scoreboard was not read for any shot.
pub fn make_totals(shots: &[Listed]) -> (r: Option<Totals>)
    ensures
        r is Some <==> exists|k: int|
            0 <= k < shots@.len() && (#[trigger] shots@[k]).verdict != Verdict::Unread,
        r is Some ==> {
            let n = shots@.len() as int;
            &&& r->0.left_made == taken_among(shots@, Player::Left, true, n)
            &&& r->0.left_taken == taken_among(shots@, Player::Left, false, n)
            &&& r->0.right_made == taken_among(shots@, Player::Right, true, n)
            &&& r->0.right_taken == taken_among(shots@, Player::Right, false, n)
        },
{
    let mut t: Totals = Totals { left_made: 0, left_taken: 0, right_made: 0, right_taken: 0 };
    let mut annotated: bool = false;
    for k in 0..shots.len()
        invariant
            annotated <==> exists|j: int|
                0 <= j < k && (#[trigger] shots@[j]).verdict != Verdict::Unread,
            t.left_made == taken_among(shots@, Player::Left, true, k as int),
            t.left_taken == taken_among(shots@, Player::Left, false, k as int),
            t.right_made == taken_among(shots@, Player::Right, true, k as int),
            t.right_taken == taken_among(shots@, Player::Right, false, k as int),
            t.left_made <= k && t.left_taken <= k && t.right_made <= k && t.right_taken <= k,
    {
        let s: Listed = shots[k];
        if s.verdict != Verdict::Unread {
            annotated = true;
        }
        match s.player {
            Player::Left => {
                t.left_taken += 1;
                if s.verdict == Verdict::Make {
                    t.left_made += 1;
                }
            },
            Player::Right => {
                t.right_taken += 1;
                if s.verdict == Verdict::Make {
                    t.right_made += 1;
                }
            },
            Player::Unknown => {},
        }
    }
    if annotated {
        Some(t)
    } else {
        None
    }
}

/// No player makes more shots than they take.
pub proof fn law_made_at_most_taken(shots: Seq<Listed>, player: Player, n: int)
    ensures
        taken_among(shots, player, true, n) <= taken_among(shots, player, false, n),
    decreases n,
{
    if n > 0 {
        law_made_at_most_taken(shots, player, n - 1);
    }
}

/// The shot before or after the current one, if there is one.
pub fn neighbor(current: Option<usize>, shots: usize, forward: bool) -> (r: Option<usize>)
    ensures
        ({
            let cur = match current {
                Some(c) => c,
                None => 0,
            };
            r == (if forward {
                if cur + 1 < shots {
                    Some((cur + 1) as usize)
                } else {
                    None
                }
            } else if cur > 0 {
                Some((cur - 1) as usize)
            } else {
                None
            })
        }),
        r is Some && current is Some && forward ==> r->0 == current->0 + 1 && r->0 < shots,
        r is Some && current is Some && !forward ==> r->0 + 1 == current->0,
        forward && current is Some && current->0 + 1 < shots ==> r is Some,
        !forward && current is Some && current->0 > 0 ==> r is Some,
{
    let cur: usize = match current {
        Some(c) => c,
        None => 0,
    };
    if forward {
        if shots > 0 && cur < shots - 1 {
            Some(cur + 1)
        } else {
            None
        }
    } else if cur > 0 {
        Some(cur - 1)
    } else {
        None
    }
}

/// The ball a viewer draws for a color name: red for any other name.
pub fn color_of(name: &Text) -> (c: BallColor)
    ensures
        c == (match color_named(name@) {
            Some(c) => c,
            None => BallColor::Red,
        }),
{
    match crate::files::shot::color_for(name.as_slice()) {
        Some(c) => c,
        None => BallColor::Red,
    }
}

/// The name of a ball in the order of the scene.
pub fn ball_name(colors: &[BallColor], i: usize) -> (s: &'static str)
    ensures
        s@ == (if i < colors@.len() {
            match colors@[i as int] {
                BallColor::White => "white"@,
                BallColor::Yellow => "yellow"@,
                BallColor::Red => "red"@,
            }
        } else {
            "ball"@
        }),
{
    if i < colors.len() {
        match colors[i] {
            BallColor::White => "white",
            BallColor::Yellow => "yellow",
            BallColor::Red => "red",
        }
    } else {
        "ball"
    }
}

/// What went wrong in fetching.
#[derive(Clone, Copy, Debug, PartialEq, Eq, Structural)]
pub enum Fetching {
    Manifest,
    Shots,
    Shot,
}

/// What a viewer is browsing.
#[derive(Clone, Copy, Debug, PartialEq, Eq)]
pub struct Browser {
    pub games: usize,
    pub current_game: Option<usize>,
    pub shots: usize,
    pub current_shot: Option<usize>,
    pub loading: bool,
    /// Whether a shot is shown.
    pub loaded: bool,
    /// What could not be fetched.
    pub failed: Option<Fetching>,
}

/// What becomes of a shot that arrives.
#[derive(Clone, Copy, Debug, PartialEq, Eq, Structural)]
pub enum Arrival {
    /// It is the one waited for.
    Show,
    /// Another one was asked for meanwhile.
    Stale,
}

impl Browser {
    /// There is no shot without a game.
    pub open spec fn wf(self) -> bool {
        self.current_shot is Some ==> self.current_game is Some
    }

    /// The browser once the manifest has arrived, or failed to.
    pub open spec fn with_manifest(self, games: Option<usize>) -> Browser {
        match games {
            Some(n) => Browser { games: n, loading: false, ..self },
            None => Browser { loading: false, failed: Some(Fetching::Manifest), ..self },
        }
    }

    /// The browser once a game is opened.
    pub open spec fn with_game(self, game: usize) -> Browser {
        Browser {
            current_game: Some(game),
            shots: 0,
            current_shot: None,
            loaded: false,
            loading: true,
            ..self
        }
    }

    /// The browser once a shot is asked for, if there is such a shot.
    pub open spec fn with_shot(self, shot: usize) -> Browser {
        if self.current_game is Some && shot < self.shots {
            Browser { current_shot: Some(shot), loading: true, ..self }
        } else {
            self
        }
    }

    /// The browser once a list of shots has arrived, or failed to.
    pub open spec fn with_list(self, shots: Option<usize>) -> Browser {
        match shots {
            Some(n) => Browser { shots: n, loading: false, ..self },
            None => Browser { loading: false, failed: Some(Fetching::Shots), ..self },
        }
    }

    /// A game that is opened shows nothing of the one before it: no shot is current or shown,
    /// and none can be asked for until its list has arrived. Then exactly those of the list
    /// can.
    pub proof fn law_opened_game_starts_afresh(self, game: usize, shots: usize, k: usize)
        ensures
            ({
                let b = self.with_game(game);
                &&& b.current_game == Some(game) && b.current_shot is None && !b.loaded && b.loading
                &&& b.games == self.games
                &&& b.with_shot(k) == b
                &&& k < shots ==> b.with_list(Some(shots)).with_shot(k).current_shot == Some(k)
                &&& k >= shots ==> b.with_list(Some(shots)).with_shot(k).current_shot is None
                &&& !b.with_list(Some(shots)).loading
            }),
    {
    }

    /// What could not be fetched changes nothing but that it is said so: the games, the shots
    /// and what is shown stay.
    pub proof fn law_failure_loses_nothing(self)
        ensures
            ({
                let (a, b) = (self.with_manifest(None), self.with_list(None));
                &&& a.failed == Some(Fetching::Manifest) && b.failed == Some(Fetching::Shots)
                &&& !a.loading && !b.loading
                &&& a.games == self.games && b.games == self.games
                &&& a.shots == self.shots && b.shots == self.shots
                &&& a.current_game == self.current_game && b.current_game == self.current_game
                &&& a.current_shot == self.current_shot && b.current_shot == self.current_shot
                &&& a.loaded == self.loaded && b.loaded == self.loaded
            }),
            forall|n: usize| (#[trigger] self.with_manifest(Some(n))).games == n,
    {
    }

    pub fn new() -> (b: Browser)
        ensures
            b.wf(),
            b.games == 0,
            b.current_game is None,
            b.shots == 0,
            b.current_shot is None,
            b.loading,
            !b.loaded,
            b.failed is None,
    {
        Browser {
            games: 0,
            current_game: None,
            shots: 0,
            current_shot: None,
            loading: true,
            loaded: false,
            failed: None,
        }
    }

    /// The manifest has arrived, with its number of games, or could not be fetched.
    pub fn manifest_arrived(&mut self, games: Option<usize>)
        requires
            old(self).wf(),
        ensures
            final(self).wf(),
            *final(self) == (match games {
                Some(n) => Browser { games: n, loading: false, ..*old(self) },
                None => Browser {
                    loading: false,
                    failed: Some(Fetching::Manifest),
                    ..*old(self)
                },
            }),
            *final(self) == old(self).with_manifest(games),
    {
        self.loading = false;
        match games {
            Some(n) => {
                self.games = n;
            },
            None => {
                self.failed = Some(Fetching::Manifest);
            },
        }
    }

    /// A game is opened: its shots are yet to come.
    pub fn open_game(&mut self, game: usize)
        requires
            old(self).wf(),
            game < old(self).games,
        ensures
            final(self).wf(),
            *final(self) == (Browser {
                current_game: Some(game),
                shots: 0,
                current_shot: None,
                loaded: false,
                loading: true,
                ..*old(self)
            }),
            *final(self) == old(self).with_game(game),
    {
        self.current_game = Some(game);
        self.shots = 0;
        self.current_shot = None;
        self.loaded = false;
        self.loading = true;
    }

    /// A shot of the current game, which is a listed one, is opened, if there is such a
    /// shot. Whether it was.
    pub fn open_shot(&mut self, shot: usize) -> (opened: bool)
        requires
            old(self).wf(),
            old(self).current_game is Some && shot < old(self).shots
                ==> old(self).current_game->0 < old(self).games,
        ensures
            final(self).wf(),
            opened == (old(self).current_game is Some && shot < old(self).shots),
            opened ==> *final(self) == (Browser {
                current_shot: Some(shot),
                loading: true,
                ..*old(self)
            }),
            !opened ==> *final(self) == *old(self),
            *final(self) == old(self).with_shot(shot),
    {
        if self.current_game.is_some() && shot < self.shots {
            self.current_shot = Some(shot);
            self.loading = true;
            true
        } else {
            false
        }
    }

    /// The shot list of the current game has arrived, with its number of shots, or
    /// could not be fetched. Whether its first shot is to be opened.
    pub fn shots_arrived(&mut self, shots: Option<usize>) -> (open_first: bool)
        requires
            old(self).wf(),
        ensures
            final(self).wf(),
            open_first == (shots is Some && shots->0 > 0),
            *final(self) == (match shots {
                Some(n) => Browser { shots: n, loading: false, ..*old(self) },
                None => Browser { loading: false, failed: Some(Fetching::Shots), ..*old(self) },
            }),
            *final(self) == old(self).with_list(shots),
    {
        self.loading = false;
        match shots {
            Some(n) => {
                self.shots = n;
                n > 0
            },
            None => {
                self.failed = Some(Fetching::Shots);
                false
            },
        }
    }

    /// A shot has arrived, or could not be fetched.
    pub fn shot_arrived(&mut self, shot: Option<usize>) -> (r: Option<Arrival>)
        requires
            old(self).wf(),
        ensures
            final(self).wf(),
            r == (match shot {
                Some(s) => if old(self).current_shot == Some(s) {
                    Some(Arrival::Show)
                } else {
                    Some(Arrival::Stale)
                },
                None => None,
            }),
            *final(self) == (match shot {
                Some(_) => Browser { loading: false, ..*old(self) },
                None => Browser { loading: false, failed: Some(Fetching::Shot), ..*old(self) },
            }),
    {
        self.loading = false;
        match shot {
            Some(s) => match self.current_shot {
                Some(c) => if c == s {
                    Some(Arrival::Show)
                } else {
                    Some(Arrival::Stale)
                },
                None => Some(Arrival::Stale),
            },
            None => {
                self.failed = Some(Fetching::Shot);
                None
            },
        }
    }

    /// A shot is shown.
    pub fn shown(&mut self)
        requires
            old(self).wf(),
        ensures
            final(self).wf(),
            *final(self) == (Browser { loaded: true, failed: None, ..*old(self) }),
    {
        self.loaded = true;
        self.failed = None;
    }
}

/// A text without the slashes at its end.
pub open spec fn unslashed(s: Seq<char>) -> Seq<char>
    decreases s.len(),
{
    if s.len() > 0 && s.last() == '/' {
        unslashed(s.drop_last())
    } else {
        s
    }
}

/// A path below a base: the base without the slashes at its end, a slash, and the
/// rest.
pub fn join_path(base: &[char], rel: &[char]) -> (r: Text)
    ensures
        r@ == unslashed(base@).push('/') + rel@,
{
    let mut n: usize = base.len();
    assert(base@.take(n as int) =~= base@);
    while n > 0 && base[n - 1] == '/'
        invariant
            n <= base@.len(),
            unslashed(base@) == unslashed(base@.take(n as int)),
        decreases n,
    {
        assert(base@.take(n as int).drop_last() =~= base@.take(n - 1));
        n -= 1;
    }
    let mut r: Text = copy(base, 0, n);
    assert(r@ =~= base@.take(n as int));
    r.push('/');
    r.extend_from_slice(rel);
    assert(r@ =~= unslashed(base@).push('/') + rel@);
    r
}

/// A problem report, as marked: its numbers are texts.
#[derive(Debug)]
pub struct Report {
    pub stamp: Text,
    pub shot: Option<Text>,
    pub playhead: Text,
    /// The bad segment: from when, and until when if that is marked.
    pub bad_from: Option<Text>,
    pub bad_until: Option<Text>,
    pub ball: Text,
    /// The ball's correct place.
    pub place: Option<(Text, Text)>,
    pub view: ActionView,
    pub words: Text,
}

/// The name of a view.
pub open spec fn view_name(v: ActionView) -> Seq<char> {
    match v {
        ActionView::Shot => "shot"@,
        ActionView::Repaired => "repaired"@,
        ActionView::Solved => "solved"@,
    }
}

impl Report {
    pub open spec fn head_lines(self) -> Seq<char> {
        "# Shot report "@ + self.stamp@ + "\n"@
    }

    pub open spec fn shot_lines(self) -> Seq<char> {
        match self.shot {
            Some(p) => "shot: "@ + p@ + "\n"@,
            None => seq![],
        }
    }

    pub open spec fn playhead_lines(self) -> Seq<char> {
        "playhead: "@ + self.playhead@ + "\n"@
    }

    pub open spec fn bad_lines(self) -> Seq<char> {
        match self.bad_from {
            Some(a) => "bad_segment: "@ + a@ + " - "@ + (match self.bad_until {
                Some(b) => b@,
                None => "end"@,
            }) + "\n"@,
            None => seq![],
        }
    }

    pub open spec fn ball_lines(self) -> Seq<char> {
        if self.place is Some || self.bad_from is Some {
            "ball: "@ + self.ball@ + "\n"@
        } else {
            seq![]
        }
    }

    pub open spec fn place_lines(self) -> Seq<char> {
        match self.place {
            Some((x, y)) => "correct_position: "@ + x@ + ", "@ + y@ + "\n"@,
            None => seq![],
        }
    }

    pub open spec fn closing_lines(self) -> Seq<char> {
        "view: "@ + view_name(self.view) + "\n\n"@ + trimmed(self.words@) + "\n"@
    }

    /// The lines of a report: what is marked, then the words.
    pub open spec fn lines(self) -> Seq<char> {
        self.head_lines() + self.shot_lines() + self.playhead_lines() + self.bad_lines()
            + self.ball_lines() + self.place_lines() + self.closing_lines()
    }

    /// Whether there is anything to report: words, or a place.
    pub fn worth_saving(&self) -> (r: bool)
        ensures
            r == (trimmed(self.words@).len() > 0 || self.place is Some),
    {
        trim(self.words.as_slice()).len() > 0 || self.place.is_some()
    }

    fn put_shot(&self, r: &mut Text)
        ensures
            final(r)@ == old(r)@ + self.shot_lines(),
    {
        if let Some(p) = &self.shot {
            put(r, chars_of("shot: ").as_slice());
            put(r, p.as_slice());
            put(r, chars_of("\n").as_slice());
        }
        assert(r@ =~= old(r)@ + self.shot_lines());
    }

    fn put_playhead(&self, r: &mut Text)
        ensures
            final(r)@ == old(r)@ + self.playhead_lines(),
    {
        put(r, chars_of("playhead: ").as_slice());
        put(r, self.playhead.as_slice());
        put(r, chars_of("\n").as_slice());
        assert(r@ =~= old(r)@ + self.playhead_lines());
    }

    fn put_bad(&self, r: &mut Text)
        ensures
            final(r)@ == old(r)@ + self.bad_lines(),
    {
        if let Some(a) = &self.bad_from {
            put(r, chars_of("bad_segment: ").as_slice());
            put(r, a.as_slice());
            put(r, chars_of(" - ").as_slice());
            match &self.bad_until {
                Some(b) => {
                    put(r, b.as_slice());
                },
                None => {
                    put(r, chars_of("end").as_slice());
                },
            }
            put(r, chars_of("\n").as_slice());
        }
        assert(r@ =~= old(r)@ + self.bad_lines());
    }

    fn put_ball(&self, r: &mut Text)
        ensures
            final(r)@ == old(r)@ + self.ball_lines(),
    {
        if self.place.is_some() || self.bad_from.is_some() {
            put(r, chars_of("ball: ").as_slice());
            put(r, self.ball.as_slice());
            put(r, chars_of("\n").as_slice());
        }
        assert(r@ =~= old(r)@ + self.ball_lines());
    }

    fn put_place(&self, r: &mut Text)
        ensures
            final(r)@ == old(r)@ + self.place_lines(),
    {
        if let Some((x, y)) = &self.place {
            put(r, chars_of("correct_position: ").as_slice());
            put(r, x.as_slice());
            put(r, chars_of(", ").as_slice());
            put(r, y.as_slice());
            put(r, chars_of("\n").as_slice());
        }
        assert(r@ =~= old(r)@ + self.place_lines());
    }

    fn put_closing(&self, r: &mut Text)
        ensures
            final(r)@ == old(r)@ + self.closing_lines(),
    {
        put(r, chars_of("view: ").as_slice());
        match self.view {
            ActionView::Shot => {
                put(r, chars_of("shot").as_slice());
            },
            ActionView::Repaired => {
                put(r, chars_of("repaired").as_slice());
            },
            ActionView::Solved => {
                put(r, chars_of("solved").as_slice());
            },
        }
        put(r, chars_of("\n\n").as_slice());
        put(r, trim(self.words.as_slice()).as_slice());
        put(r, chars_of("\n").as_slice());
        assert(r@ =~= old(r)@ + self.closing_lines());
    }

    /// Write the report.
    pub fn write(&self) -> (r: Text)
        ensures
            r@ == self.lines(),
    {
        let mut r: Text = chars_of("# Shot report ");
        put(&mut r, self.stamp.as_slice());
        put(&mut r, chars_of("\n").as_slice());
        self.put_shot(&mut r);
        self.put_playhead(&mut r);
        self.put_bad(&mut r);
        self.put_ball(&mut r);
        self.put_place(&mut r);
        self.put_closing(&mut r);
        r
    }
}

/// Append a text.
fn put(r: &mut Text, s: &[char])
    ensures
        final(r)@ == old(r)@ + s@,
{
    r.extend_from_slice(s);
    assert(r@ =~= old(r)@ + s@);
}

/// What a player took are the shots in the list that are theirs, and what they made those of
/// them that the scoreboard calls made.
pub proof fn law_shots_are_counted(shots: Seq<Listed>, player: Player, n: int)
    requires
        0 <= n <= shots.len(),
    ensures
        taken_among(shots, player, false, n) == shots.take(n).filter(
            |s: Listed| s.player == player,
        ).len(),
        taken_among(shots, player, true, n) == shots.take(n).filter(
            |s: Listed| s.player == player && s.verdict == Verdict::Make,
        ).len(),
    decreases n,
{
    let took = |s: Listed| s.player == player;
    let made = |s: Listed| s.player == player && s.verdict == Verdict::Make;
    if n > 0 {
        law_shots_are_counted(shots, player, n - 1);
        shots.take(n - 1).lemma_filter_len_push(took, shots[n - 1]);
        shots.take(n - 1).lemma_filter_len_push(made, shots[n - 1]);
        assert(shots.take(n - 1).push(shots[n - 1]) =~= shots.take(n));
    } else {
        reveal(Seq::filter);
    }
}

/// A text loses the slashes at its end, all of them and nothing else.
pub proof fn law_unslashed(s: Seq<char>)
    ensures
        unslashed(s).len() <= s.len(),
        unslashed(s) == s.take(unslashed(s).len() as int),
        forall|k: int| unslashed(s).len() <= k < s.len() ==> #[trigger] s[k] == '/',
        unslashed(s).len() > 0 ==> unslashed(s).last() != '/',
    decreases s.len(),
{
    if s.len() > 0 && s.last() == '/' {
        let front = s.drop_last();
        law_unslashed(front);
        let n = unslashed(front).len() as int;
        assert(front.take(n) =~= s.take(n));
        assert forall|k: int| n <= k < s.len() implies #[trigger] s[k] == '/' by {
            if k < front.len() {
                assert(front[k] == s[k]);
            }
        }
    } else {
        assert(s.take(s.len() as int) =~= s);
    }
}

impl Report {
    /// A report with everything marked says it all, a line each: the shot, the playhead, the
    /// bad segment, the ball and its place, the view, and then the words; one with nothing
    /// marked says the playhead, the view and the words.
    pub proof fn law_report_says_what_is_marked(self)
        ensures
            self.shot is Some && self.bad_from is Some && self.bad_until is Some
                && self.place is Some ==> self.lines() == "# Shot report "@ + self.stamp@ + "\n"@ + (
            "shot: "@ + self.shot->0@ + "\n"@) + ("playhead: "@ + self.playhead@ + "\n"@) + (
            "bad_segment: "@ + self.bad_from->0@ + " - "@ + self.bad_until->0@ + "\n"@) + (
            "ball: "@ + self.ball@ + "\n"@) + ("correct_position: "@ + (self.place->0).0@ + ", "@ + (
            self.place->0).1@ + "\n"@) + ("view: "@ + view_name(self.view) + "\n\n"@ + trimmed(
                self.words@,
            ) + "\n"@),
            self.shot is None && self.bad_from is None && self.place is None ==> self.lines()
                == "# Shot report "@ + self.stamp@ + "\n"@ + ("playhead: "@ + self.playhead@
                + "\n"@) + ("view: "@ + view_name(self.view) + "\n\n"@ + trimmed(self.words@)
                + "\n"@),
            self.bad_from is Some && self.bad_until is None ==> self.bad_lines()
                == "bad_segment: "@ + self.bad_from->0@ + " - "@ + "end"@ + "\n"@,
            self.place is Some || self.bad_from is Some ==> self.ball_lines() == "ball: "@
                + self.ball@ + "\n"@,
    {
        if self.shot is None && self.bad_from is None && self.place is None {
            assert(self.lines() =~= "# Shot report "@ + self.stamp@ + "\n"@ + ("playhead: "@
                + self.playhead@ + "\n"@) + ("view: "@ + view_name(self.view) + "\n\n"@
                + trimmed(self.words@) + "\n"@));
        }
    }
}

/// Every view has its own name.
pub proof fn law_views_have_names(v: ActionView)
    ensures
        v == ActionView::Shot ==> view_name(v) == "shot"@,
        v == ActionView::Repaired ==> view_name(v) == "repaired"@,
        v == ActionView::Solved ==> view_name(v) == "solved"@,
{
}

} // verus!
