//! The icon in the notification area: what it remembers, and what it says.
//!
//! The icon owns the life of one tunnel config. It fetches it, installs it,
//! restarts the tunnel when it changed, and looks again every few minutes.
//! The fetching and the restarting are done outside; each outcome comes back
//! here.

use vstd::prelude::*;

use crate::text::{
    cat2, cat3, contains, has_text, law_contains_is_in_the_middle, occurs_at, owned, same,
    text_option,
};

verus! {

/// How often the fetch runs on its own.
pub const POLL_MINUTES: i32 = 10;

/// How often the fetch runs on its own, in milliseconds.
pub fn poll_interval() -> (r: i32)
    ensures
        r == POLL_MINUTES * 60 * 1000,
{
    POLL_MINUTES * 60 * 1000
}

/// The first that is there: an argument, a variable, the default.
pub open spec fn setting(
    arg: Option<Seq<char>>,
    variable: Option<Seq<char>>,
    default: Seq<char>,
) -> Seq<char> {
    match arg {
        Some(a) => a,
        None => match variable {
            Some(v) => v,
            None => default,
        },
    }
}

/// The argument at a place.
pub open spec fn argument(args: Seq<String>, i: int) -> Option<Seq<char>> {
    if i < args.len() {
        Some(args[i]@)
    } else {
        None
    }
}

fn choose_setting(
    args: &[String],
    i: usize,
    variable: Option<String>,
    default: &str,
) -> (r: String)
    ensures
        r@ == setting(argument(args@, i as int), text_option(variable), default@),
{
    if i < args.len() {
        return args[i].clone();
    }
    match variable {
        Some(v) => v,
        None => owned(default),
    }
}

/// Which tunnel to keep up to date, and from where: as the arguments say,
/// or the variables, or the defaults.
pub fn settings(
    args: &[String],
    tunnel: Option<String>,
    url: Option<String>,
) -> (r: (String, String))
    ensures
        r.0@ == setting(argument(args@, 0), text_option(tunnel), "wireguard"@),
        r.1@ == setting(
            argument(args@, 1),
            text_option(url),
            "https://vpn.denizsincar.ru/conf"@,
        ),
{
    (
        choose_setting(args, 0, tunnel, "wireguard"),
        choose_setting(args, 1, url, "https://vpn.denizsincar.ru/conf"),
    )
}

/// What the icon remembers.
pub struct Tray {
    /// The tunnel whose config is kept up to date.
    pub tunnel: String,
    /// Where the configs come from.
    pub url: String,
    /// Whether the tunnel is meant to be up, as far as the last action says.
    pub running: bool,
    /// What was said last.
    pub last: Option<String>,
}

/// A [`Tray`] as character sequences.
#[verifier::ext_equal]
pub struct TrayView {
    pub tunnel: Seq<char>,
    pub url: Seq<char>,
    pub running: bool,
    pub last: Option<Seq<char>>,
}

impl View for Tray {
    type V = TrayView;

    open spec fn view(&self) -> TrayView {
        TrayView {
            tunnel: self.tunnel@,
            url: self.url@,
            running: self.running,
            last: text_option(self.last),
        }
    }
}

/// How a fetch went.
#[derive(Debug, PartialEq, Eq)]
pub enum Update {
    /// Nothing was installed, with the words of the failure.
    Failed(String),
    /// The config is what it was.
    Unchanged,
    /// The config changed and the tunnel was restarted.
    Restarted(String),
    /// The config changed, but the tunnel did not come up with it.
    NotRestarted(String),
}

/// What follows a fetch.
#[derive(Debug, PartialEq, Eq)]
pub enum TrayNext {
    /// The config changed, and the tunnel is to be restarted.
    Restart,
    /// Nothing more is to be done, and this is said.
    Say(String),
}

/// What is said of a fetch. That the tunnel runs with an old config is
/// another thing than that nothing was fetched.
pub open spec fn update_text(tunnel: Seq<char>, u: Update) -> Seq<char> {
    match u {
        Update::Failed(e) => tunnel + ": ошибка — "@ + e@,
        Update::Unchanged => tunnel + ": без изменений"@,
        Update::Restarted(what) => tunnel + ": обновлён, "@ + what@,
        Update::NotRestarted(e) => tunnel + ": обновлён, но туннель не поднялся — "@ + e@,
    }
}

/// True for words that say that something went wrong.
pub open spec fn sounds_bad(text: Seq<char>) -> bool {
    contains(text, "ошибка"@) || contains(text, "не удалось"@) || contains(text, "не поднялся"@)
}

/// True when the icon should warn.
pub fn is_warning(text: &str) -> (r: bool)
    ensures
        r == sounds_bad(text@),
{
    has_text(text, "ошибка") || has_text(text, "не удалось") || has_text(text, "не поднялся")
}

/// The words that the icon carries.
pub fn tooltip(text: &str) -> (r: String)
    ensures
        r@ == "wireutils — "@ + text@,
{
    cat2("wireutils — ", text)
}

/// What is said of the place of the config.
pub fn place_text(place: &str) -> (r: String)
    ensures
        r@ == "конфиг клиента лежит в "@ + place@,
{
    cat2("конфиг клиента лежит в ", place)
}

impl Tray {
    pub fn new(tunnel: String, url: String) -> (r: Self)
        ensures
            r@ == (TrayView { tunnel: tunnel@, url: url@, running: true, last: None }),
    {
        Tray { tunnel, url, running: true, last: None }
    }

    /// Take what fetching and installing the config came to: whether it
    /// changed, or the words of the failure. Only a config that changed has
    /// the tunnel restarted; a poll must not restart a working tunnel for
    /// nothing.
    pub fn fetched(&mut self, outcome: Result<bool, String>) -> (r: TrayNext)
        ensures
            final(self)@ == old(self)@,
            match outcome {
                Ok(true) => r is Restart,
                Ok(false) => r matches TrayNext::Say(m) && m@ == update_text(
                    old(self)@.tunnel,
                    Update::Unchanged,
                ),
                Err(e) => r matches TrayNext::Say(m) && m@ == update_text(
                    old(self)@.tunnel,
                    Update::Failed(e),
                ),
            },
    {
        match outcome {
            Ok(true) => TrayNext::Restart,
            Ok(false) => TrayNext::Say(self.updated(Update::Unchanged)),
            Err(e) => TrayNext::Say(self.updated(Update::Failed(e))),
        }
    }

    /// Take what restarting the tunnel with a changed config came to. Gives
    /// what is said of it.
    pub fn restarted(&mut self, outcome: Result<String, String>) -> (r: String)
        ensures
            match outcome {
                Ok(what) => {
                    &&& r@ == update_text(old(self)@.tunnel, Update::Restarted(what))
                    &&& final(self)@ == (TrayView { running: true, ..old(self)@ })
                },
                Err(e) => {
                    &&& r@ == update_text(old(self)@.tunnel, Update::NotRestarted(e))
                    &&& final(self)@ == old(self)@
                },
            },
    {
        match outcome {
            Ok(what) => self.updated(Update::Restarted(what)),
            Err(e) => self.updated(Update::NotRestarted(e)),
        }
    }

    /// Take the outcome of a fetch. Gives what is said of it.
    pub fn updated(&mut self, u: Update) -> (r: String)
        ensures
            r@ == update_text(old(self)@.tunnel, u),
            final(self)@ == (TrayView {
                running: old(self)@.running || u is Restarted,
                ..old(self)@
            }),
    {
        match u {
            Update::Failed(e) => cat3(self.tunnel.as_str(), ": ошибка — ", e.as_str()),
            Update::Unchanged => cat2(self.tunnel.as_str(), ": без изменений"),
            Update::Restarted(what) => {
                self.running = true;
                cat3(self.tunnel.as_str(), ": обновлён, ", what.as_str())
            },
            Update::NotRestarted(e) => cat3(
                self.tunnel.as_str(),
                ": обновлён, но туннель не поднялся — ",
                e.as_str(),
            ),
        }
    }

    /// Ask for the tunnel to be up when it is down, and the other way round.
    /// Gives what is wanted now.
    pub fn toggle(&mut self) -> (r: bool)
        ensures
            r == !old(self)@.running,
            final(self)@ == (TrayView { running: r, ..old(self)@ }),
    {
        self.running = !self.running;
        self.running
    }

    /// Take the outcome of what was asked for. Where it did not happen, the
    /// tunnel is remembered as it was before. Gives what is said of it.
    pub fn toggled(&mut self, outcome: Result<String, String>) -> (r: String)
        ensures
            match outcome {
                Ok(what) => final(self)@ == old(self)@ && r@ == old(self)@.tunnel + ": "@ + what@,
                Err(e) => {
                    &&& final(self)@ == (TrayView { running: !old(self)@.running, ..old(self)@ })
                    &&& r@ == old(self)@.tunnel + ": не удалось — "@ + e@
                },
            },
    {
        match outcome {
            Ok(what) => cat3(self.tunnel.as_str(), ": ", what.as_str()),
            Err(e) => {
                self.running = !self.running;
                cat3(self.tunnel.as_str(), ": не удалось — ", e.as_str())
            },
        }
    }

    /// Remember what was said. True when it is news: the same sentence is
    /// not shown again by a poll.
    pub fn says(&mut self, text: &str) -> (r: bool)
        ensures
            r == (old(self)@.last != Some(text@)),
            final(self)@ == (TrayView { last: Some(text@), ..old(self)@ }),
    {
        let news: bool = match &self.last {
            Some(l) => !same(l.as_str(), text),
            None => true,
        };
        self.last = Some(owned(text));
        news
    }
}

// ---------------------------------------------------------------------------
// Laws
// ---------------------------------------------------------------------------

/// A failure shows: what is said of a fetch that failed, or of a tunnel that
/// did not come up, makes the icon warn.
pub proof fn law_failures_warn(tunnel: Seq<char>, e: String)
    ensures
        sounds_bad(update_text(tunnel, Update::Failed(e))),
        sounds_bad(update_text(tunnel, Update::NotRestarted(e))),
        sounds_bad(tunnel + ": не удалось — "@ + e@),
{
    reveal_strlit("ошибка");
    reveal_strlit(": ошибка — ");
    reveal_strlit("не поднялся");
    reveal_strlit(": обновлён, но туннель не поднялся — ");
    reveal_strlit("не удалось");
    reveal_strlit(": не удалось — ");
    let a = update_text(tunnel, Update::Failed(e));
    let b = update_text(tunnel, Update::NotRestarted(e));
    let c = tunnel + ": не удалось — "@ + e@;
    let n = tunnel.len() as int;
    assert(a.subrange(n + 2, n + 2 + 6) =~= "ошибка"@);
    assert(occurs_at(a, "ошибка"@, n + 2));
    assert(b.subrange(n + 23, n + 23 + 11) =~= "не поднялся"@);
    assert(occurs_at(b, "не поднялся"@, n + 23));
    assert(c.subrange(n + 2, n + 2 + 10) =~= "не удалось"@);
    assert(occurs_at(c, "не удалось"@, n + 2));
}

/// The icon warns of a text that has one of the words of a failure anywhere
/// in it.
pub proof fn law_words_of_a_failure_warn(a: Seq<char>, b: Seq<char>)
    ensures
        sounds_bad(a + "ошибка"@ + b),
        sounds_bad(a + "не удалось"@ + b),
        sounds_bad(a + "не поднялся"@ + b),
{
    law_contains_is_in_the_middle(a + "ошибка"@ + b, "ошибка"@);
    law_contains_is_in_the_middle(a + "не удалось"@ + b, "не удалось"@);
    law_contains_is_in_the_middle(a + "не поднялся"@ + b, "не поднялся"@);
}

/// Good news does not make the icon warn: neither that nothing changed nor
/// that the tunnel was restarted, as long as what is told is plain ASCII.
pub proof fn law_good_news_does_not_warn(tunnel: Seq<char>, what: String)
    requires
        forall|k: int| 0 <= k < tunnel.len() ==> (#[trigger] tunnel[k]) as int <= 127,
        forall|k: int| 0 <= k < what@.len() ==> (#[trigger] what@[k]) as int <= 127,
    ensures
        !sounds_bad(update_text(tunnel, Update::Unchanged)),
        !sounds_bad(update_text(tunnel, Update::Restarted(what))),
{
    reveal_strlit(": без изменений");
    reveal_strlit(": обновлён, ");
    let same = update_text(tunnel, Update::Unchanged);
    let new = update_text(tunnel, Update::Restarted(what));
    assert forall|k: int| 0 <= k < same.len() implies #[trigger] same[k] != 'ш' && same[k] != 'у'
        && same[k] != 'п' by {
        if k < tunnel.len() {
            assert(same[k] == tunnel[k]);
        } else {
            assert(same[k] == ": без изменений"@[k - tunnel.len()]);
        }
    }
    assert forall|k: int| 0 <= k < new.len() implies #[trigger] new[k] != 'ш' && new[k] != 'у'
        && new[k] != 'п' by {
        let n = tunnel.len() + ": обновлён, "@.len();
        if k < tunnel.len() {
            assert(new[k] == tunnel[k]);
        } else if k < n {
            assert(new[k] == ": обновлён, "@[k - tunnel.len()]);
        } else {
            assert(new[k] == what@[k - n]);
        }
    }
    lemma_no_bad_words(same);
    lemma_no_bad_words(new);
}

proof fn lemma_no_bad_words(text: Seq<char>)
    requires
        forall|k: int|
            0 <= k < text.len() ==> #[trigger] text[k] != 'ш' && text[k] != 'у' && text[k] != 'п',
    ensures
        !sounds_bad(text),
{
    reveal_strlit("ошибка");
    reveal_strlit("не удалось");
    reveal_strlit("не поднялся");
    if contains(text, "ошибка"@) {
        let i = choose|i: int| occurs_at(text, "ошибка"@, i);
        assert(text.subrange(i, i + "ошибка"@.len())[1] == 'ш');
        assert(text[i + 1] == 'ш');
    }
    if contains(text, "не удалось"@) {
        let i = choose|i: int| occurs_at(text, "не удалось"@, i);
        assert(text.subrange(i, i + "не удалось"@.len())[3] == 'у');
        assert(text[i + 3] == 'у');
    }
    if contains(text, "не поднялся"@) {
        let i = choose|i: int| occurs_at(text, "не поднялся"@, i);
        assert(text.subrange(i, i + "не поднялся"@.len())[3] == 'п');
        assert(text[i + 3] == 'п');
    }
}

/// What is said begins with the tunnel that it is said of, and ends with the
/// words that are handed on.
pub proof fn law_words_name_the_tunnel(tunnel: Seq<char>, u: Update)
    ensures
        tunnel.is_prefix_of(update_text(tunnel, u)),
        u matches Update::Failed(e) ==> e@.is_suffix_of(update_text(tunnel, u)),
        u matches Update::Restarted(what) ==> what@.is_suffix_of(update_text(tunnel, u)),
        u matches Update::NotRestarted(e) ==> e@.is_suffix_of(update_text(tunnel, u)),
{
    let s = update_text(tunnel, u);
    assert(s.take(tunnel.len() as int) =~= tunnel);
    match u {
        Update::Failed(e) => {
            assert(s.skip(s.len() - e@.len()) =~= e@);
        },
        Update::Restarted(what) => {
            assert(s.skip(s.len() - what@.len()) =~= what@);
        },
        Update::NotRestarted(e) => {
            assert(s.skip(s.len() - e@.len()) =~= e@);
        },
        Update::Unchanged => {},
    }
}

/// An argument wins over a variable, whatever it says, and a variable over
/// the default.
pub proof fn law_argument_wins(
    a: Seq<char>,
    arg: Option<Seq<char>>,
    variable: Option<Seq<char>>,
    default: Seq<char>,
)
    ensures
        setting(Some(a), variable, default) == a,
        setting(None, Some(a), default) == a,
        setting(None, None, default) == default,
        setting(arg, variable, default) == a ==> arg == Some(a) || variable == Some(a) || a
            == default,
{
}

} // verus!
