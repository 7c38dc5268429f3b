//! Who may use the service: credentials, sessions and the session cookie.

use vstd::prelude::*;

use crate::ids;
use crate::text;

verus! {

// ── Sessions ────────────────────────────────────────────────────────────────

/// The credentials of the service and the sessions that are open.
pub struct AuthConfig {
    username: String,
    password: String,
    sessions: Vec<String>,
}

/// The values of an `AuthConfig`.
#[verifier::ext_equal]
pub struct AuthView {
    pub username: Seq<char>,
    pub password: Seq<char>,
    pub sessions: Set<Seq<char>>,
}

impl View for AuthConfig {
    type V = AuthView;

    closed spec fn view(&self) -> AuthView {
        AuthView {
            username: self.username@,
            password: self.password@,
            sessions: text::texts(self.sessions@).to_set(),
        }
    }
}

impl AuthView {
    /// Whether the given credentials are those of the service.
    pub open spec fn accepts(self, username: Seq<char>, password: Seq<char>) -> bool {
        username == self.username && password == self.password
    }

    /// With one more session.
    pub open spec fn opened(self, token: Seq<char>) -> AuthView {
        AuthView { sessions: self.sessions.insert(token), ..self }
    }

    /// Without the given session.
    pub open spec fn closed(self, token: Seq<char>) -> AuthView {
        AuthView { sessions: self.sessions.remove(token), ..self }
    }
}

impl AuthConfig {
    /// The given credentials and no session.
    pub fn new(username: String, password: String) -> (auth: AuthConfig)
        ensures
            auth@ == (AuthView {
                username: username@,
                password: password@,
                sessions: Set::empty(),
            }),
    {
        let auth = AuthConfig { username, password, sessions: Vec::new() };
        assert(auth@.sessions =~= Set::empty());
        auth
    }

    /// Opens a session if the credentials are right, and returns its token.
    pub fn create_session(&mut self, username: &str, password: &str) -> (token: Option<String>)
        ensures
            match token {
                Some(t) => {
                    &&& old(self)@.accepts(username@, password@)
                    &&& ids::is_hyphenated_id(t@)
                    &&& final(self)@ == old(self)@.opened(t@)
                },
                None => !old(self)@.accepts(username@, password@) && final(self)@ == old(self)@,
            },
    {
        if text::same_text(username, self.username.as_str()) && text::same_text(
            password,
            self.password.as_str(),
        ) {
            let token = ids::random_hyphenated_id();
            self.open(token.clone());
            Some(token)
        } else {
            None
        }
    }

    fn open(&mut self, token: String)
        ensures
            final(self)@ == old(self)@.opened(token@),
    {
        let ghost before = text::texts(self.sessions@);
        self.sessions.push(token);
        let ghost after = text::texts(self.sessions@);
        proof {
            assert(after =~= before.push(token@));
            assert forall|t: Seq<char>| after.contains(t) == (before.contains(t) || t == token@) by {
                if before.contains(t) {
                    let k = choose|k: int| 0 <= k < before.len() && before[k] == t;
                    assert(after[k] == t);
                }
                assert(after[before.len() as int] == token@);
            }
            assert(self@ =~= old(self)@.opened(token@));
        }
    }

    /// Whether a session with the given token is open.
    pub fn is_valid(&self, token: &str) -> (valid: bool)
        ensures
            valid == self@.sessions.contains(token@),
    {
        text::has_text(&self.sessions, token)
    }

    /// Closes the session with the given token.
    pub fn revoke(&mut self, token: &str)
        ensures
            final(self)@ == old(self)@.closed(token@),
    {
        let ghost before = text::texts(self.sessions@);
        let mut kept: Vec<String> = Vec::new();
        let mut i: usize = 0;
        while i < self.sessions.len()
            invariant
                i <= self.sessions.len(),
                *self == *old(self),
                before == text::texts(self.sessions@),
                forall|t: Seq<char>|
                    text::texts(kept@).contains(t) == (t != token@ && before.take(i as int).contains(t)),
            decreases self.sessions.len() - i,
        {
            let s = self.sessions[i].clone();
            let ghost was = text::texts(kept@);
            let keep = !text::same_text(s.as_str(), token);
            if keep {
                kept.push(s.clone());
            }
            proof {
                let now = text::texts(kept@);
                let seen = before.take(i + 1);
                assert(seen[i as int] == s@);
                assert forall|t: Seq<char>| now.contains(t) == (t != token@ && seen.contains(t)) by {
                    assert(was.contains(t) == (t != token@ && before.take(i as int).contains(t)));
                    if keep {
                        assert(now =~= was.push(s@));
                        assert(now[was.len() as int] == s@);
                    }
                    if was.contains(t) {
                        let k = choose|k: int| 0 <= k < was.len() && was[k] == t;
                        assert(now[k] == t);
                    }
                    if before.take(i as int).contains(t) {
                        let k = choose|k: int| 0 <= k < i && before.take(i as int)[k] == t;
                        assert(seen[k] == t);
                    }
                    if seen.contains(t) && t != s@ {
                        let k = choose|k: int| 0 <= k < i + 1 && seen[k] == t;
                        assert(before.take(i as int)[k] == t);
                    }
                    if now.contains(t) && t != s@ {
                        let k = choose|k: int| 0 <= k < now.len() && now[k] == t;
                        assert(was[k] == t);
                    }
                }
            }
            i += 1;
        }
        assert(before.take(i as int) =~= before);
        self.sessions = kept;
        assert(self@ =~= old(self)@.closed(token@));
    }
}

// ── The session cookie ──────────────────────────────────────────────────────

/// The value of the first of the given cookies that is the session cookie.
pub open spec fn first_session(cookies: Seq<Seq<char>>) -> Option<Seq<char>>
    decreases cookies.len(),
{
    if cookies.len() == 0 {
        None
    } else {
        match text::after_prefix(text::trimmed(cookies[0]), "session="@) {
            Some(token) => Some(token),
            None => first_session(cookies.drop_first()),
        }
    }
}

/// The session token in the value of a cookie header: cookies are separated by
/// semicolons.
pub open spec fn cookie_token(header: Seq<char>) -> Option<Seq<char>> {
    first_session(text::split_on(header, ';'))
}

/// The session token in the value of a cookie header.
pub fn session_cookie(header: &str) -> (token: Option<String>)
    ensures
        text::opt_text(token) == cookie_token(header@),
{
    let prefix = text::chars_of("session=");
    let mut semicolon: Vec<char> = Vec::new();
    semicolon.push(';');
    assert(semicolon@ =~= seq![';']);
    let mut rest = text::chars_of(header);
    loop
        invariant
            prefix@ == "session="@,
            semicolon@ == seq![';'],
            cookie_token(header@) == cookie_token(rest@),
        decreases rest.len(),
    {
        let at = text::find_chars(&rest, &semicolon, 0);
        let ghost s = rest@;
        proof {
            if let Some(i) = at {
                text::lemma_found(s, seq![';'], 0);
                let tail = text::split_on(s.skip(i + 1), ';');
                let all = text::split_on(s, ';');
                assert(all == seq![s.take(i as int)] + tail);
                assert(all[0] == s.take(i as int));
                assert(all.drop_first() =~= tail);
            } else {
                assert(text::split_on(s, ';') == seq![s]);
                assert(seq![s].drop_first() =~= Seq::empty());
                reveal_with_fuel(first_session, 2);
            }
        }
        let end: usize = match at {
            Some(i) => i,
            None => rest.len(),
        };
        let piece = text::slice_chars(&rest, 0, end);
        assert(piece@ =~= s.take(end as int));
        assert(s.take(s.len() as int) =~= s);
        let cookie = text::trim_chars(&piece);
        match text::strip_prefix_chars(&cookie, &prefix) {
            Some(token) => {
                return Some(text::string_of(&token));
            },
            None => {},
        }
        match at {
            Some(i) => {
                rest = text::slice_chars(&rest, i + 1, rest.len());
                assert(rest@ =~= s.skip(i + 1));
            },
            None => {
                return None;
            },
        }
    }
}

// ── Requests ────────────────────────────────────────────────────────────────

/// The credentials that a client sends.
pub struct LoginBody {
    pub username: String,
    pub password: String,
}

/// The answer to a request about a session: a status code, a cookie to set, and the
/// error where the request was refused.
pub struct AuthReply {
    pub status: u16,
    pub set_cookie: Option<String>,
    pub error: Option<String>,
}

/// The values of an `AuthReply`.
#[verifier::ext_equal]
pub struct AuthReplyView {
    pub status: u16,
    pub set_cookie: Option<Seq<char>>,
    pub error: Option<Seq<char>>,
}

impl View for AuthReply {
    type V = AuthReplyView;

    open spec fn view(&self) -> AuthReplyView {
        AuthReplyView {
            status: self.status,
            set_cookie: text::opt_text(self.set_cookie),
            error: text::opt_text(self.error),
        }
    }
}

/// The request was granted.
pub open spec fn granted(set_cookie: Option<Seq<char>>) -> AuthReplyView {
    AuthReplyView { status: 200, set_cookie, error: None }
}

/// The request was refused.
pub open spec fn refused(error: Seq<char>) -> AuthReplyView {
    AuthReplyView { status: 401, set_cookie: None, error: Some(error) }
}

/// The cookie that a login sets.
pub open spec fn login_cookie(token: Seq<char>) -> Seq<char> {
    "session="@ + token + "; HttpOnly; Path=/; SameSite=Strict"@
}

/// The cookie that a logout sets.
pub open spec fn logout_cookie() -> Seq<char> {
    "session=; HttpOnly; Path=/; Max-Age=0; SameSite=Strict"@
}

/// Whether the cookie header of a request names an open session.
pub open spec fn is_authorized(auth: AuthView, cookie: Option<Seq<char>>) -> bool {
    match cookie {
        Some(header) => match cookie_token(header) {
            Some(token) => auth.sessions.contains(token),
            None => false,
        },
        None => false,
    }
}

/// The characters of an optional header.
pub open spec fn opt_header(header: Option<&str>) -> Option<Seq<char>> {
    match header {
        Some(h) => Some(h@),
        None => None,
    }
}

/// Whether the cookie header of a request names an open session.
pub fn authorized(auth: &AuthConfig, cookie: Option<&str>) -> (yes: bool)
    ensures
        yes == is_authorized(auth@, opt_header(cookie)),
{
    match cookie {
        Some(header) => match session_cookie(header) {
            Some(token) => auth.is_valid(token.as_str()),
            None => false,
        },
        None => false,
    }
}

fn unauthorized() -> (reply: AuthReply)
    ensures
        reply@ == refused("unauthorized"@),
{
    AuthReply { status: 401, set_cookie: None, error: Some("unauthorized".to_owned()) }
}

/// The guard before every protected request: `None` lets it pass, otherwise the
/// request is answered with the given refusal.
pub fn require_auth(auth: &AuthConfig, cookie: Option<&str>) -> (refusal: Option<AuthReply>)
    ensures
        match refusal {
            Some(reply) => !is_authorized(auth@, opt_header(cookie)) && reply@ == refused(
                "unauthorized"@,
            ),
            None => is_authorized(auth@, opt_header(cookie)),
        },
{
    if authorized(auth, cookie) {
        None
    } else {
        Some(unauthorized())
    }
}

/// Opens a session for a client with the right credentials.
pub fn login(auth: &mut AuthConfig, body: &LoginBody) -> (reply: AuthReply)
    ensures
        if old(auth)@.accepts(body.username@, body.password@) {
            exists|token: Seq<char>| #[trigger]
                ids::is_hyphenated_id(token) && reply@ == granted(Some(login_cookie(token)))
                    && final(auth)@ == old(auth)@.opened(token)
        } else {
            reply@ == refused("invalid credentials"@) && final(auth)@ == old(auth)@
        },
{
    match auth.create_session(body.username.as_str(), body.password.as_str()) {
        Some(token) => {
            let mut cookie = "session=".to_owned();
            cookie.append(token.as_str());
            cookie.append("; HttpOnly; Path=/; SameSite=Strict");
            assert(ids::is_hyphenated_id(token@));
            AuthReply { status: 200, set_cookie: Some(cookie), error: None }
        },
        None => AuthReply {
            status: 401,
            set_cookie: None,
            error: Some("invalid credentials".to_owned()),
        },
    }
}

/// The state after a logout: the session that the cookie header names is closed.
pub open spec fn after_logout(auth: AuthView, cookie: Option<Seq<char>>) -> AuthView {
    match cookie {
        Some(header) => match cookie_token(header) {
            Some(token) => auth.closed(token),
            None => auth,
        },
        None => auth,
    }
}

/// Closes the session of a client.
pub fn logout(auth: &mut AuthConfig, cookie: Option<&str>) -> (reply: AuthReply)
    ensures
        reply@ == granted(Some(logout_cookie())),
        final(auth)@ == after_logout(old(auth)@, opt_header(cookie)),
{
    if let Some(header) = cookie {
        if let Some(token) = session_cookie(header) {
            auth.revoke(token.as_str());
        }
    }
    AuthReply {
        status: 200,
        set_cookie: Some("session=; HttpOnly; Path=/; Max-Age=0; SameSite=Strict".to_owned()),
        error: None,
    }
}

/// Tells a client whether its session is open.
pub fn check(auth: &AuthConfig, cookie: Option<&str>) -> (reply: AuthReply)
    ensures
        reply@ == if is_authorized(auth@, opt_header(cookie)) {
            granted(None)
        } else {
            refused("unauthorized"@)
        },
{
    if authorized(auth, cookie) {
        AuthReply { status: 200, set_cookie: None, error: None }
    } else {
        unauthorized()
    }
}

// ── Credentials ─────────────────────────────────────────────────────────────

/// The first twelve characters of a random identifier.
pub open spec fn is_generated_password(s: Seq<char>) -> bool {
    exists|id: Seq<char>| #[trigger] ids::is_hyphenated_id(id) && s == id.take(12)
}

/// The credentials to start with: the user name that was set or `admin`, the password
/// that was set or a random one. The last part says whether the password is random.
pub fn initial_credentials(username: Option<String>, password: Option<String>) -> (out: (
    String,
    String,
    bool,
))
    ensures
        out.0@ == match username {
            Some(u) => u@,
            None => "admin"@,
        },
        match password {
            Some(p) => out.1@ == p@ && !out.2,
            None => is_generated_password(out.1@) && out.2,
        },
{
    let user: String = match username {
        Some(u) => u,
        None => "admin".to_owned(),
    };
    match password {
        Some(p) => (user, p, false),
        None => {
            let id = ids::random_hyphenated_id();
            let chars = text::chars_of(id.as_str());
            let generated = text::string_between(&chars, 0, 12);
            assert(generated@ =~= id@.take(12));
            (user, generated, true)
        },
    }
}

// ── Laws ────────────────────────────────────────────────────────────────────

proof fn lemma_hex_plain(c: char)
    requires
        ids::is_hex(c) || c == '-',
    ensures
        c != ';',
        !text::is_space(c),
{
}

/// The token that a login gave out is read back from the cookie that the client
/// sends.
pub proof fn cookie_carries_the_token(token: Seq<char>)
    requires
        ids::is_hyphenated_id(token),
    ensures
        cookie_token("session="@ + token) == Some(token),
{
    reveal_strlit("session=");
    let s = "session="@ + token;
    assert forall|j: int| 0 <= j < s.len() implies #[trigger] s[j] != ';' by {
        if j >= 8 {
            assert(s[j] == token[j - 8]);
            lemma_hex_plain(token[j - 8]);
        }
    }
    assert forall|j: int| 0 <= j implies !(#[trigger] text::occurs_at(s, seq![';'], j)) by {
        if text::occurs_at(s, seq![';'], j) {
            assert(s.subrange(j, j + 1)[0] == s[j]);
        }
    }
    text::lemma_stands_nowhere(s, seq![';'], 0);
    assert(text::split_on(s, ';') == seq![s]);
    assert(s[0] == 's');
    assert(text::trimmed_start(s) == s);
    assert(s.last() == token.last());
    lemma_hex_plain(token[35]);
    assert(text::trimmed(s) == s);
    assert(s.subrange(0, 8) =~= "session="@);
    assert(s.skip(8) =~= token);
    assert(seq![s][0] == s);
}

/// After a login, the client's requests pass the guard; after a logout with the same
/// cookie they no longer do. Other sessions are not touched by either.
pub proof fn a_session_lasts_from_login_to_logout(auth: AuthView, token: Seq<char>, other: Seq<char>)
    requires
        ids::is_hyphenated_id(token),
        other != token,
    ensures
        ({
            let cookie = Some("session="@ + token);
            let inside = auth.opened(token);
            let after = after_logout(inside, cookie);
            &&& is_authorized(inside, cookie)
            &&& !is_authorized(after, cookie)
            &&& inside.sessions.contains(other) == auth.sessions.contains(other)
            &&& after.sessions.contains(other) == auth.sessions.contains(other)
        }),
{
    cookie_carries_the_token(token);
}

/// Something that happens to the sessions: a login, which gives out a token or is refused,
/// a logout with a cookie header, or the closing of a session by its token.
pub enum SessionStep {
    Login { given: Option<Seq<char>> },
    Logout { cookie: Option<Seq<char>> },
    Revoke { token: Seq<char> },
}

impl SessionStep {
    /// Whether the step gives out the token.
    pub open spec fn gives_out(self, wanted: Seq<char>) -> bool {
        self matches SessionStep::Login { given } && given == Some(wanted)
    }

    /// Whether the step closes the session with the token.
    pub open spec fn ends(self, wanted: Seq<char>) -> bool {
        match self {
            SessionStep::Login { .. } => false,
            SessionStep::Logout { cookie } => match cookie {
                Some(header) => cookie_token(header) == Some(wanted),
                None => false,
            },
            SessionStep::Revoke { token } => token == wanted,
        }
    }
}

/// The state after the given steps.
pub open spec fn after_steps(auth: AuthView, steps: Seq<SessionStep>) -> AuthView
    decreases steps.len(),
{
    if steps.len() == 0 {
        auth
    } else {
        let before = after_steps(auth, steps.drop_last());
        match steps.last() {
            SessionStep::Login { given } => match given {
                Some(t) => before.opened(t),
                None => before,
            },
            SessionStep::Logout { cookie } => after_logout(before, cookie),
            SessionStep::Revoke { token } => before.closed(token),
        }
    }
}

/// A login gave out the token, and no later step closed its session.
pub open spec fn is_open_after(steps: Seq<SessionStep>, token: Seq<char>) -> bool {
    exists|i: int|
        #![trigger steps[i]]
        0 <= i < steps.len() && steps[i].gives_out(token) && forall|j: int|
            i < j < steps.len() ==> !(#[trigger] steps[j]).ends(token)
}

/// After any course of logins and logouts a token is valid exactly if a login gave it out
/// and no later step closed its session. The credentials stay as they are.
pub proof fn a_token_is_valid_until_it_is_revoked(auth: AuthView, steps: Seq<SessionStep>, token: Seq<char>)
    requires
        auth.sessions == Set::<Seq<char>>::empty(),
    ensures
        after_steps(auth, steps).sessions.contains(token) <==> is_open_after(steps, token),
        after_steps(auth, steps).username == auth.username,
        after_steps(auth, steps).password == auth.password,
    decreases steps.len(),
{
    if steps.len() > 0 {
        let front = steps.drop_last();
        let n = steps.len() - 1;
        a_token_is_valid_until_it_is_revoked(auth, front, token);
        assert forall|i: int| 0 <= i < n implies front[i] == steps[i] by {}
        if is_open_after(steps, token) && !steps[n].gives_out(token) {
            let i = choose|i: int|
                #![trigger steps[i]]
                0 <= i < steps.len() && steps[i].gives_out(token) && forall|j: int|
                    i < j < steps.len() ==> !(#[trigger] steps[j]).ends(token);
            assert(front[i].gives_out(token));
            assert(!steps[n].ends(token));
            assert(is_open_after(front, token));
        }
        if is_open_after(front, token) && !steps[n].ends(token) {
            let i = choose|i: int|
                #![trigger front[i]]
                0 <= i < front.len() && front[i].gives_out(token) && forall|j: int|
                    i < j < front.len() ==> !(#[trigger] front[j]).ends(token);
            assert(steps[i].gives_out(token));
            assert forall|j: int| i < j < steps.len() implies !(#[trigger] steps[j]).ends(token) by {
                if j < n {
                    assert(!front[j].ends(token));
                }
            }
            assert(is_open_after(steps, token));
        }
        if steps[n].gives_out(token) {
            assert(is_open_after(steps, token));
        }
    }
}

/// Closing a session leaves the others as they are, and closing one that is not open
/// changes nothing.
pub proof fn revoking_touches_one_session(auth: AuthView, token: Seq<char>, other: Seq<char>)
    requires
        other != token,
    ensures
        auth.closed(token).sessions.contains(other) == auth.sessions.contains(other),
        !auth.sessions.contains(token) ==> auth.closed(token) == auth,
{
    assert(!auth.sessions.contains(token) ==> auth.closed(token) =~= auth);
}

/// Without a cookie header, no request passes the guard.
pub proof fn no_cookie_no_entry(auth: AuthView)
    ensures
        !is_authorized(auth, None),
{
}

/// A session cookie is found among other cookies, the first one of several, whatever
/// whitespace stands around it.
pub proof fn the_session_is_found_among_cookies(
    before: Seq<char>,
    token: Seq<char>,
    after: Seq<char>,
    left: Seq<char>,
    right: Seq<char>,
)
    requires
        token.len() > 0,
        !token.contains(';'),
        !text::is_space(token.last()),
        forall|k: int| 0 <= k < left.len() ==> text::is_space(#[trigger] left[k]),
        forall|k: int| 0 <= k < right.len() ==> text::is_space(#[trigger] right[k]),
        cookie_token(before) is None,
    ensures
        ({
            let cookie = left + ("session="@ + token) + right;
            &&& cookie_token(cookie) == Some(token)
            &&& cookie_token(cookie + seq![';'] + after) == Some(token)
            &&& cookie_token(before + seq![';'] + cookie) == Some(token)
            &&& cookie_token(before + seq![';'] + (cookie + seq![';'] + after)) == Some(token)
        }),
{
    reveal_strlit("session=");
    let named = "session="@ + token;
    let cookie = left + named + right;
    assert(named[0] == 's');
    assert(named.last() == token.last());
    text::trimming_leaves_the_text(left, named, right);
    assert(named.subrange(0, 8) =~= "session="@);
    assert(named.skip(8) =~= token);
    assert(!cookie.contains(';')) by {
        if cookie.contains(';') {
            let k = choose|k: int| 0 <= k < cookie.len() && cookie[k] == ';';
            if k < left.len() {
                assert(left[k] == ';');
            } else if k < left.len() + named.len() {
                let d = k - left.len();
                assert(named[d] == ';');
                if d >= 8 {
                    assert(token[d - 8] == ';');
                }
            } else {
                assert(right[k - left.len() - named.len()] == ';');
            }
        }
    }
    text::splitting_goes_part_by_part(Seq::empty(), cookie, ';');
    let one = text::split_on(cookie, ';');
    assert(one == seq![cookie]);
    text::splitting_goes_part_by_part(cookie, after, ';');
    let more = text::split_on(cookie + seq![';'] + after, ';');
    assert(more[0] == cookie);
    text::splitting_goes_part_by_part(before, cookie, ';');
    text::splitting_goes_part_by_part(before, cookie + seq![';'] + after, ';');
    lemma_no_session_before(text::split_on(before, ';'), one);
    lemma_no_session_before(text::split_on(before, ';'), more);
}

/// Cookies without a session among them do not hide the session behind them.
proof fn lemma_no_session_before(a: Seq<Seq<char>>, b: Seq<Seq<char>>)
    requires
        first_session(a) is None,
    ensures
        first_session(a + b) == first_session(b),
    decreases a.len(),
{
    if a.len() == 0 {
        assert(a + b =~= b);
    } else {
        assert((a + b)[0] == a[0]);
        assert((a + b).drop_first() =~= a.drop_first() + b);
        lemma_no_session_before(a.drop_first(), b);
    }
}

/// A cookie header has a session only where one of its cookies starts with the name of the
/// session cookie, after whitespace.
pub proof fn other_cookies_are_no_session(header: Seq<char>)
    requires
        !header.contains(';'),
        text::trimmed(header).len() < 8 || text::trimmed(header).take(8) != "session="@,
    ensures
        cookie_token(header) is None,
{
    reveal_strlit("session=");
    text::splitting_goes_part_by_part(Seq::empty(), header, ';');
    let parts = text::split_on(header, ';');
    assert(parts == seq![header]);
    let t = text::trimmed(header);
    if text::occurs_at(t, "session="@, 0) {
        assert(t.take(8) =~= t.subrange(0, 8));
    }
    assert(parts.drop_first() =~= Seq::empty());
    reveal_with_fuel(first_session, 2);
}

/// Only the right user name with the right password is accepted, and both to the letter.
pub proof fn credentials_are_exact(auth: AuthView, username: Seq<char>, password: Seq<char>)
    ensures
        auth.accepts(auth.username, auth.password),
        username != auth.username ==> !auth.accepts(username, password),
        password != auth.password ==> !auth.accepts(username, password),
{
}

} // verus!
