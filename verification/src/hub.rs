//! The rules of the host's conversations with Hermes and the NeuralDeep hub:
//! addresses, what a reply must hold, sign-in and the polling of slow jobs.
use vstd::prelude::*;
use vstd::utf8::encode_utf8;

use crate::config::{law_model_block_key_round_trip, model_hub_key, with_model_block};
use crate::text::{
    chars_of, first_of, has_prefix_str, lemma_first_of_bound, lemma_trim_end_append,
    lemma_trim_start_plain, starts_with, string_of, trim, trimmed,
};

verus! {

// ---------------------------------------------------------------------------
// Addresses and credentials

/// The Hermes loopback API.
pub open spec fn hermes_base() -> Seq<char> {
    "http://127.0.0.1:8642"@
}

/// An address of the Hermes API: the base followed by `path`.
pub fn hermes_url(path: &str) -> (r: String)
    ensures
        r@ == hermes_base() + path@,
{
    let mut r = String::from_str("http://127.0.0.1:8642");
    r.append(path);
    r
}

/// The address of a Hermes session.
pub fn session_url(session_id: &str) -> (r: String)
    ensures
        r@ == hermes_base() + "/api/sessions/"@ + session_id@,
{
    let mut r = String::from_str("http://127.0.0.1:8642");
    r.append("/api/sessions/");
    r.append(session_id);
    r
}

/// The address of a session's chat stream.
pub fn chat_stream_url(session_id: &str) -> (r: String)
    ensures
        r@ == hermes_base() + "/api/sessions/"@ + session_id@ + "/chat/stream"@,
{
    let mut r = session_url(session_id);
    r.append("/chat/stream");
    r
}

/// The `Authorization` header value for a key.
pub fn bearer(key: &str) -> (r: String)
    ensures
        r@ == "Bearer "@ + key@,
{
    let mut r = String::from_str("Bearer ");
    r.append(key);
    r
}

/// The hub key a hub request needs; refused while the user has not signed in.
pub fn require_hub_key(key: String) -> (r: Result<String, String>)
    ensures
        match r {
            Ok(k) => key@.len() > 0 && k@ == key@,
            Err(e) => key@.len() == 0 && e@ == "no hub key"@,
        },
{
    if key.as_str().is_empty() {
        Err(String::from_str("no hub key"))
    } else {
        Ok(key)
    }
}

/// The refusal of a text that is not a hub key.
pub open spec fn bad_key_message() -> Seq<char> {
    "Это не похоже на ключ NeuralDeep (должен начинаться с sk-)"@
}

/// Whether a pasted hub key is accepted, once trimmed: it starts with `sk-`
/// and is at least 12 bytes long.
pub open spec fn hub_key_ok(key: Seq<char>) -> bool {
    starts_with(trim(key), "sk-"@) && encode_utf8(trim(key)).len() >= 12
}

/// Each character takes one to four bytes in UTF-8.
pub proof fn lemma_utf8_len_bounds(s: Seq<char>)
    ensures
        s.len() <= encode_utf8(s).len() <= 4 * s.len(),
    decreases s.len(),
{
    if s.len() > 0 {
        lemma_utf8_len_bounds(s.drop_first());
    }
}

/// Checks a pasted hub key and returns it trimmed.
pub fn validate_hub_key(key: &str) -> (r: Result<String, String>)
    ensures
        match r {
            Ok(k) => hub_key_ok(key@) && k@ == trim(key@),
            Err(e) => !hub_key_ok(key@) && e@ == bad_key_message(),
        },
{
    let kv = trimmed(&chars_of(key));
    let k = string_of(&kv);
    proof {
        lemma_utf8_len_bounds(kv@);
    }
    let long_enough = if kv.len() >= 12 {
        true
    } else {
        k.as_str().len() >= 12
    };
    if !has_prefix_str(&kv, "sk-") || !long_enough {
        Err(String::from_str("Это не похоже на ключ NeuralDeep (должен начинаться с sk-)"))
    } else {
        Ok(k)
    }
}

/// Signing in with a pasted key is seen by the host: when the key is
/// accepted, the `model:` block written with it makes the config's hub key
/// non-empty, so the host reports the user as signed in.
pub proof fn law_accepted_key_signs_in(txt: Seq<char>, key: Seq<char>)
    requires
        hub_key_ok(key),
    ensures
        model_hub_key(with_model_block(txt, trim(key))).len() > 0,
{
    reveal_strlit("sk-");
    let k = trim(key);
    law_model_block_key_round_trip(txt, k);
    lemma_first_of_bound(k, '\n');
    let j = first_of(k, '\n') as int;
    assert(k.take(3) == "sk-"@);
    assert(k.take(3)[0] == 's');
    assert(k.take(3)[1] == 'k');
    assert(k.take(3)[2] == '-');
    assert(k[0] == 's' && k[1] == 'k' && k[2] == '-');
    if j < 3 {
        assert(k[j] == '\n');
    }
    assert(j >= 3);
    let x = k.take(j);
    assert(x[0] == 's');
    lemma_trim_start_plain(x);
    assert(x == seq![x[0]] + x.skip(1));
    lemma_trim_end_append(seq![x[0]], x.skip(1));
    assert(trim(x).len() > 0);
}

// ---------------------------------------------------------------------------
// Replies

/// The session id in Hermes' reply to `POST /api/sessions`: `session.id`,
/// else `session.session_id`.
pub fn session_id_from(id: Option<String>, session_id: Option<String>) -> (r: Result<String, String>)
    ensures
        match r {
            Ok(s) => match id {
                Some(i) => s@ == i@,
                None => session_id matches Some(j) && s@ == j@,
            },
            Err(e) => id is None && session_id is None && e@ == "no session id in response"@,
        },
{
    match id {
        Some(i) => Ok(i),
        None => match session_id {
            Some(j) => Ok(j),
            None => Err(String::from_str("no session id in response")),
        },
    }
}

/// `s` without leading `'"'` characters.
pub open spec fn drop_leading_quotes(s: Seq<char>) -> Seq<char>
    decreases s.len(),
{
    if s.len() > 0 && s[0] == '"' {
        drop_leading_quotes(s.drop_first())
    } else {
        s
    }
}

/// `s` without trailing `'"'` characters.
pub open spec fn drop_trailing_quotes(s: Seq<char>) -> Seq<char>
    decreases s.len(),
{
    if s.len() > 0 && s.last() == '"' {
        drop_trailing_quotes(s.drop_last())
    } else {
        s
    }
}

/// A generated title: the reply's content trimmed, with quotes stripped from
/// both ends (`trim().trim_matches('"')`).
pub open spec fn clean_title(content: Seq<char>) -> Seq<char> {
    drop_trailing_quotes(drop_leading_quotes(trim(content)))
}

fn strip_quotes(v: &Vec<char>) -> (r: Vec<char>)
    ensures
        r@ == drop_trailing_quotes(drop_leading_quotes(v@)),
{
    let mut a: usize = 0;
    assert(v@.skip(0) == v@);
    while a < v.len() && v[a] == '"'
        invariant
            a <= v@.len(),
            drop_leading_quotes(v@) == drop_leading_quotes(v@.skip(a as int)),
        decreases v@.len() - a,
    {
        assert(v@.skip(a as int).drop_first() == v@.skip(a + 1));
        a = a + 1;
    }
    let mut b: usize = v.len();
    assert(v@.skip(a as int) == v@.subrange(a as int, b as int));
    while b > a && v[b - 1] == '"'
        invariant
            a <= b <= v@.len(),
            drop_leading_quotes(v@) == v@.skip(a as int),
            drop_trailing_quotes(v@.skip(a as int)) == drop_trailing_quotes(v@.subrange(a as int, b as int)),
        decreases b,
    {
        assert(v@.subrange(a as int, b as int).drop_last() == v@.subrange(a as int, b - 1));
        b = b - 1;
    }
    crate::text::slice_range(v, a, b)
}

/// The title from the hub's reply (`choices[0].message.content`), or the
/// refusal `empty title` when nothing is left of it.
pub fn title_from_reply(content: Option<String>) -> (r: Result<String, String>)
    ensures
        ({
            let t = clean_title(
                match content {
                    Some(c) => c@,
                    None => Seq::<char>::empty(),
                },
            );
            match r {
                Ok(s) => t.len() > 0 && s@ == t,
                Err(e) => t.len() == 0 && e@ == "empty title"@,
            }
        }),
{
    let c = match content {
        Some(c) => chars_of(c.as_str()),
        None => Vec::new(),
    };
    let t = strip_quotes(&trimmed(&c));
    if t.len() == 0 {
        Err(String::from_str("empty title"))
    } else {
        Ok(string_of(&t))
    }
}

/// What the host asks the hub for a chat title.
pub struct TitleRequest {
    pub model: &'static str,
    pub max_tokens: u32,
    pub system: &'static str,
    pub user: String,
}

/// The title request for the first message of a chat: a fast model, at most
/// 24 tokens, and an instruction to answer with a 3 to 5 word title only.
pub fn title_request(text: String) -> (r: TitleRequest)
    ensures
        r.model@ == "gemma-4-31b-noreason"@,
        r.max_tokens == 24,
        r.system@ == "Придумай очень короткий заголовок (3-5 слов) для диалога по первому сообщению. Ответь только заголовком, без кавычек и точки."@,
        r.user@ == text@,
{
    TitleRequest {
        model: "gemma-4-31b-noreason",
        max_tokens: 24,
        system: "Придумай очень короткий заголовок (3-5 слов) для диалога по первому сообщению. Ответь только заголовком, без кавычек и точки.",
        user: text,
    }
}

/// A model in the hub's `cli/status` reply: its `id` and context window
/// `ctx`, when present as a string and an unsigned number.
pub struct HubModel {
    pub id: Option<String>,
    pub ctx: Option<u64>,
}

/// The context window of the active model: `ctx` of the first listed model
/// whose `id` is the active one, 0 when there is none or it has no `ctx`.
pub open spec fn context_of(models: Seq<HubModel>, active: Seq<char>) -> u64
    decreases models.len(),
{
    if models.len() == 0 {
        0
    } else if models[0].id matches Some(i) && i@ == active {
        match models[0].ctx {
            Some(c) => c,
            None => 0,
        }
    } else {
        context_of(models.drop_first(), active)
    }
}

/// Finds the context window of the active model.
pub fn context_window(models: &Vec<HubModel>, active: &str) -> (r: u64)
    ensures
        r == context_of(models@, active@),
{
    let av = chars_of(active);
    let mut i: usize = 0;
    assert(models@.skip(0) == models@);
    while i < models.len()
        invariant
            i <= models@.len(),
            av@ == active@,
            context_of(models@, active@) == context_of(models@.skip(i as int), active@),
        decreases models@.len() - i,
    {
        assert(models@.skip(i as int)[0] == models@[i as int]);
        assert(models@.skip(i as int).drop_first() == models@.skip(i + 1));
        match &models[i].id {
            Some(id) => {
                let iv = chars_of(id.as_str());
                if crate::text::chars_eq(&iv, &av) {
                    return match models[i].ctx {
                        Some(c) => c,
                        None => 0,
                    };
                }
            },
            None => {},
        }
        i = i + 1;
    }
    0
}

// ---------------------------------------------------------------------------
// Sign-in by device authorization (RFC 8628)

/// Where the user approves the device when the hub names no page.
pub open spec fn default_device_page() -> Seq<char> {
    "https://hub.neuraldeep.ru/app/device"@
}

/// The start of a device sign-in, from the hub's `device/start` reply.
pub struct DeviceStart {
    pub device_code: String,
    pub user_code: String,
    pub url: String,
    pub poll: DevicePoll,
}

/// The device code the hub returned, refused when missing or empty.
pub open spec fn device_code_ok(code: Option<Seq<char>>) -> bool {
    code is Some && code->0.len() > 0
}

pub open spec fn opt_chars(o: Option<String>) -> Option<Seq<char>> {
    match o {
        Some(s) => Some(s@),
        None => None,
    }
}

/// Begins a device sign-in from the members of the hub's reply: the codes,
/// the approval page (`verification_uri_complete`, else `verification_uri`,
/// else the default page), the polling interval (5 s by default, never
/// under 2 s) and the lifetime of the code (900 s by default).
pub fn device_start(
    device_code: Option<String>,
    user_code: Option<String>,
    uri_complete: Option<String>,
    uri: Option<String>,
    interval: Option<u64>,
    expires_in: Option<u64>,
) -> (r: Result<DeviceStart, String>)
    ensures
        match r {
            Ok(s) => {
                &&& device_code_ok(opt_chars(device_code))
                &&& s.device_code@ == device_code->0@
                &&& s.user_code@ == match user_code {
                    Some(u) => u@,
                    None => Seq::<char>::empty(),
                }
                &&& s.url@ == match uri_complete {
                    Some(u) => u@,
                    None => match uri {
                        Some(u) => u@,
                        None => default_device_page(),
                    },
                }
                &&& s.poll@ == PollState {
                    interval: (match interval {
                        Some(i) => if i < 2 { 2 } else { i },
                        None => 5,
                    }) as int,
                    expires: (match expires_in {
                        Some(e) => e,
                        None => 900,
                    }) as int,
                    elapsed: 0,
                }
            },
            Err(e) => !device_code_ok(opt_chars(device_code)) && e@ == "device/start не вернул код"@,
        },
{
    let code = match device_code {
        Some(c) => c,
        None => String::new(),
    };
    if code.as_str().is_empty() {
        return Err(String::from_str("device/start не вернул код"));
    }
    let user = match user_code {
        Some(u) => u,
        None => String::new(),
    };
    let url = match uri_complete {
        Some(u) => u,
        None => match uri {
            Some(u) => u,
            None => String::from_str("https://hub.neuraldeep.ru/app/device"),
        },
    };
    let iv = match interval {
        Some(i) => if i < 2 {
            2
        } else {
            i
        },
        None => 5,
    };
    let ex = match expires_in {
        Some(e) => e,
        None => 900,
    };
    Ok(DeviceStart { device_code: code, user_code: user, url, poll: DevicePoll { interval: iv, expires: ex, elapsed: 0 } })
}

/// The `error` member of a `device/token` reply, empty when missing.
pub open spec fn error_text(error: Option<String>) -> Seq<char> {
    match error {
        Some(e) => e@,
        None => Seq::<char>::empty(),
    }
}

/// The polling clock of a device sign-in.
pub struct PollState {
    pub interval: int,
    pub expires: int,
    pub elapsed: int,
}

/// The polling clock: seconds between polls (at least 2), the lifetime of
/// the code, and the seconds waited so far.
pub struct DevicePoll {
    interval: u64,
    expires: u64,
    elapsed: u64,
}

impl View for DevicePoll {
    type V = PollState;

    closed spec fn view(&self) -> PollState {
        PollState { interval: self.interval as int, expires: self.expires as int, elapsed: self.elapsed as int }
    }
}

/// What a poll of `device/token` leads to.
#[derive(Debug)]
pub enum DeviceStep {
    /// The user approved: save this hub key.
    Approved(String),
    /// Not yet: wait and poll again.
    Wait,
    /// The user refused.
    Denied,
    /// The code expired on the hub's side.
    Expired,
}

impl DeviceStep {
    /// The message shown when the sign-in ends without a key.
    pub fn message(&self) -> (m: &'static str)
        ensures
            m@ == match self {
                DeviceStep::Approved(_) => "ok"@,
                DeviceStep::Wait => ""@,
                DeviceStep::Denied => "Вход отклонён"@,
                DeviceStep::Expired => "Код истёк — попробуй ещё раз"@,
            },
    {
        match self {
            DeviceStep::Approved(_) => "ok",
            DeviceStep::Wait => "",
            DeviceStep::Denied => "Вход отклонён",
            DeviceStep::Expired => "Код истёк — попробуй ещё раз",
        }
    }
}

/// The message when the code's lifetime ran out while waiting.
pub fn timeout_message() -> (m: &'static str)
    ensures
        m@ == "Время вышло — попробуй ещё раз"@,
{
    "Время вышло — попробуй ещё раз"
}

/// `a + b`, held at `u64::MAX`.
pub open spec fn sat_add(a: int, b: int) -> int {
    if a + b > u64::MAX {
        u64::MAX as int
    } else {
        a + b
    }
}

impl DevicePoll {
    /// Seconds to wait before the next poll.
    pub fn interval(&self) -> (s: u64)
        ensures
            s == self@.interval,
    {
        self.interval
    }

    /// Records one wait of `interval` seconds; true when the code's lifetime
    /// has run out (the sign-in then ends with [`timeout_message`]).
    pub fn tick(&mut self) -> (timed_out: bool)
        ensures
            final(self)@.interval == old(self)@.interval,
            final(self)@.expires == old(self)@.expires,
            final(self)@.elapsed == sat_add(old(self)@.elapsed, old(self)@.interval),
            timed_out == (final(self)@.elapsed > final(self)@.expires),
    {
        self.elapsed = self.elapsed.saturating_add(self.interval);
        self.elapsed > self.expires
    }

    /// The outcome of one `device/token` reply: its `access_token` approves;
    /// else its `error`: `slow_down` adds 5 seconds to the interval,
    /// `access_denied` and `expired_token` end the sign-in, anything else
    /// (`authorization_pending` among them) waits.
    pub fn on_reply(&mut self, access_token: Option<String>, error: Option<String>) -> (step: DeviceStep)
        ensures
            final(self)@.expires == old(self)@.expires,
            final(self)@.elapsed == old(self)@.elapsed,
            access_token is Some ==> final(self)@.interval == old(self)@.interval,
            access_token is Some ==> step is Approved,
            access_token is Some ==> step->0@ == access_token->0@,
            access_token is None ==> final(self)@.interval == if error_text(error) == "slow_down"@ {
                sat_add(old(self)@.interval, 5)
            } else {
                old(self)@.interval
            },
            access_token is None ==> (if error_text(error) == "access_denied"@ {
                step is Denied
            } else if error_text(error) == "expired_token"@ {
                step is Expired
            } else {
                step is Wait
            }),
    {
        proof {
            reveal_strlit("slow_down");
            reveal_strlit("access_denied");
            reveal_strlit("expired_token");
        }
        match access_token {
            Some(t) => DeviceStep::Approved(t),
            None => {
                let e = match error {
                    Some(e) => chars_of(e.as_str()),
                    None => Vec::new(),
                };
                assert(e@ == error_text(error));
                if crate::text::chars_eq_str(&e, "slow_down") {
                    assert(error_text(error) != "access_denied"@);
                    assert(error_text(error) != "expired_token"@);
                    self.interval = self.interval.saturating_add(5);
                    DeviceStep::Wait
                } else if crate::text::chars_eq_str(&e, "access_denied") {
                    DeviceStep::Denied
                } else if crate::text::chars_eq_str(&e, "expired_token") {
                    DeviceStep::Expired
                } else {
                    DeviceStep::Wait
                }
            },
        }
    }
}

/// The seconds counted after waiting `waits` in turn from `start`.
pub open spec fn waited(start: int, waits: Seq<int>) -> int
    decreases waits.len(),
{
    if waits.len() == 0 {
        start
    } else {
        waited(sat_add(start, waits[0]), waits.drop_first())
    }
}

proof fn lemma_waited_bound(start: int, w: int, waits: Seq<int>)
    requires
        0 <= start <= u64::MAX,
        w >= 0,
        forall|i: int| 0 <= i < waits.len() ==> #[trigger] waits[i] >= w,
    ensures
        waited(start, waits) >= start + w * waits.len() || waited(start, waits) == u64::MAX,
        waited(start, waits) <= u64::MAX,
    decreases waits.len(),
{
    if waits.len() > 0 {
        let rest = waits.drop_first();
        assert forall|i: int| 0 <= i < rest.len() implies #[trigger] rest[i] >= w by {
            assert(rest[i] == waits[i + 1]);
        }
        assert(waits[0] >= w);
        lemma_waited_bound(sat_add(start, waits[0]), w, rest);
        assert(w * waits.len() == w + w * rest.len()) by (nonlinear_arith)
            requires
                rest.len() + 1 == waits.len(),
        ;
    }
}

/// A device sign-in always ends, after at most `expires / interval` polls
/// (`interval` the first one, at least 2 seconds). Each
/// [`DevicePoll::tick`] adds the current interval to the seconds waited,
/// held at `u64::MAX`; the interval starts at `interval` ([`device_start`])
/// and [`DevicePoll::on_reply`] never lowers it. So once more than
/// `expires / interval` waits have been counted from a fresh start, the
/// code's lifetime has run out.
pub proof fn law_device_sign_in_ends(interval: int, expires: int, waits: Seq<int>)
    requires
        interval >= 2,
        0 <= expires < u64::MAX,
        forall|i: int| 0 <= i < waits.len() ==> #[trigger] waits[i] >= interval,
        waits.len() > expires / interval,
    ensures
        waited(0, waits) > expires,
{
    lemma_waited_bound(0, interval, waits);
    assert(interval * waits.len() > expires) by (nonlinear_arith)
        requires
            interval >= 2,
            expires >= 0,
            waits.len() >= expires / interval + 1,
    ;
}

// ---------------------------------------------------------------------------
// Image generation (submit, poll, fetch)

/// How many times the host polls an image task before fetching its result.
pub const IMAGE_POLLS: u32 = 30;

/// What the host does after a poll of an image task.
#[derive(Debug, PartialEq, Eq)]
pub enum ImageAction {
    /// Wait 3 seconds and poll again.
    PollAgain,
    /// Fetch the result.
    Fetch,
    /// The task failed.
    Fail,
}

/// After the `polls`-th poll (counting from 1) reported `status`: a
/// `finished` task is fetched, a `failed` or `error` one fails, and any
/// other status polls again, except that after the last allowed poll the
/// result is fetched anyway.
pub open spec fn image_action_of(polls: int, status: Seq<char>) -> ImageAction {
    if status == "finished"@ {
        ImageAction::Fetch
    } else if status == "failed"@ || status == "error"@ {
        ImageAction::Fail
    } else if polls >= IMAGE_POLLS {
        ImageAction::Fetch
    } else {
        ImageAction::PollAgain
    }
}

/// Decides the next step of image generation from a poll's `status`
/// (missing counts as empty).
pub fn image_action(polls: u32, status: Option<String>) -> (a: ImageAction)
    ensures
        a == image_action_of(
            polls as int,
            match status {
                Some(s) => s@,
                None => Seq::<char>::empty(),
            },
        ),
{
    let s = match status {
        Some(s) => chars_of(s.as_str()),
        None => Vec::new(),
    };
    if crate::text::chars_eq_str(&s, "finished") {
        ImageAction::Fetch
    } else if crate::text::chars_eq_str(&s, "failed") || crate::text::chars_eq_str(&s, "error") {
        ImageAction::Fail
    } else if polls >= IMAGE_POLLS {
        ImageAction::Fetch
    } else {
        ImageAction::PollAgain
    }
}

/// The aspect ratio of an image request, `1:1` unless given.
pub fn image_aspect(aspect: Option<String>) -> (r: String)
    ensures
        r@ == match aspect {
            Some(a) => a@,
            None => "1:1"@,
        },
{
    match aspect {
        Some(a) => a,
        None => String::from_str("1:1"),
    }
}

/// The task id of a submitted image request, refused with the hub's reply
/// (`reply`, as JSON text) when missing.
pub fn image_task_uid(uid: Option<String>, reply: &str) -> (r: Result<String, String>)
    ensures
        match r {
            Ok(u) => uid matches Some(x) && u@ == x@,
            Err(e) => uid is None && e@ == "no task_uid: "@ + reply@,
        },
{
    match uid {
        Some(u) => Ok(u),
        None => {
            let mut e = String::from_str("no task_uid: ");
            e.append(reply);
            Err(e)
        },
    }
}

/// The address of an image task (`result` adds `/result`).
pub fn image_task_url(uid: &str, result: bool) -> (r: String)
    ensures
        r@ == "https://api.neuraldeep.ru/v1/images/tasks/"@ + uid@ + (if result {
            "/result"@
        } else {
            Seq::<char>::empty()
        }),
{
    let mut r = String::from_str("https://api.neuraldeep.ru/v1/images/tasks/");
    r.append(uid);
    if result {
        r.append("/result");
    } else {
        assert(r@ + Seq::<char>::empty() == r@);
    }
    r
}

} // verus!
