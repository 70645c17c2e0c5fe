//! The access tokens that the server has handed out, and the random
//! identifiers that tokens, sessions and files are named by.

use crate::errors::SyncError;
use crate::text::same_str;
use rand::rngs::OsRng;
use rand::Rng;
use std::time::SystemTime;
use vstd::prelude::*;
use vstd::string::{StrSliceExecFns, StringExecFns};

verus! {

/// A point in time as the system's clock gives it. Nothing is known of it
/// here; it is stored and handed on.
#[verifier::external_type_specification]
#[verifier::external_body]
pub struct ExSystemTime(std::time::SystemTime);

/// The length of an identifier.
pub const ID_LENGTH: usize = 32;

/// A character that identifiers are made of: an ASCII letter or digit.
pub open spec fn is_id_char(c: char) -> bool {
    let u = c as u32;
    (0x61 <= u <= 0x7A) || (0x41 <= u <= 0x5A) || (0x30 <= u <= 0x39)
}

/// An identifier: 32 ASCII letters and digits.
pub open spec fn is_id(s: Seq<char>) -> bool {
    s.len() == ID_LENGTH && forall|i: int| 0 <= i < s.len() ==> is_id_char(#[trigger] s[i])
}

/// `rand::Rng::gen_range` on `rand::rngs::OsRng`, for the range from 0 up to
/// `bound`: the number drawn lies in the range. An empty range is left out,
/// as `gen_range` panics on it.
#[verifier::external_body]
fn random_below(bound: usize) -> (n: usize)
    requires
        bound > 0,
    ensures
        n < bound,
{
    OsRng.gen_range(0..bound)
}

/// `std::time::SystemTime::now`: the current time, of which nothing is claimed.
#[verifier::external_body]
fn current_time() -> SystemTime {
    SystemTime::now()
}

/// How many characters an identifier can be made of.
pub const ID_CHARSET_LENGTH: usize = 62;

/// The characters that identifiers are made of, in the order in which a
/// draw picks them: the small letters, the capitals, the digits.
pub open spec fn id_charset() -> Seq<char> {
    "abcdefghijklmnopqrstuvwxyzABCDEFGHIJKLMNOPQRSTUVWXYZ0123456789"@
}

/// Draws that make an identifier: 32 numbers, each below 62.
pub open spec fn are_draws(draws: Seq<usize>) -> bool {
    draws.len() == ID_LENGTH && forall|i: int|
        0 <= i < draws.len() ==> (#[trigger] draws[i]) < ID_CHARSET_LENGTH
}

/// The identifier that a sequence of draws makes: for each number drawn, the
/// character that stands at that place among the characters of identifiers.
pub open spec fn id_of_draws(draws: Seq<usize>) -> Seq<char> {
    draws.map_values(|d: usize| id_charset()[d as int])
}

/// The code point of the character that a draw picks.
pub open spec fn code_of_draw(d: int) -> int {
    if d < 26 {
        0x61 + d
    } else if d < 52 {
        0x41 + (d - 26)
    } else {
        0x30 + (d - 52)
    }
}

/// There are 62 characters to draw from; the draw `d` picks the character
/// with the code point `code_of_draw(d)`, which is a letter or a digit.
pub proof fn lemma_id_charset(d: int)
    requires
        0 <= d < ID_CHARSET_LENGTH,
    ensures
        id_charset().len() == ID_CHARSET_LENGTH,
        id_charset()[d] as u32 == code_of_draw(d),
        is_id_char(id_charset()[d]),
{
    reveal_strlit("abcdefghijklmnopqrstuvwxyzABCDEFGHIJKLMNOPQRSTUVWXYZ0123456789");
}

/// Different draws pick different characters.
pub proof fn lemma_draws_differ(a: int, b: int)
    requires
        0 <= a < ID_CHARSET_LENGTH,
        0 <= b < ID_CHARSET_LENGTH,
        a != b,
    ensures
        id_charset()[a] != id_charset()[b],
{
    lemma_id_charset(a);
    lemma_id_charset(b);
}

/// What draws make is an identifier.
pub proof fn lemma_id_of_draws(draws: Seq<usize>)
    requires
        are_draws(draws),
    ensures
        is_id(id_of_draws(draws)),
{
    assert forall|i: int| 0 <= i < draws.len() implies is_id_char(#[trigger] id_of_draws(draws)[i]) by {
        lemma_id_charset(draws[i] as int);
    }
}

/// Spells the identifier of draws that are known to make one.
fn spell_id(draws: &Vec<usize>) -> (id: String)
    requires
        are_draws(draws@),
    ensures
        id@ == id_of_draws(draws@),
{
    let charset = "abcdefghijklmnopqrstuvwxyzABCDEFGHIJKLMNOPQRSTUVWXYZ0123456789";
    proof {
        lemma_id_charset(0);
        reveal_strlit("abcdefghijklmnopqrstuvwxyzABCDEFGHIJKLMNOPQRSTUVWXYZ0123456789");
    }
    assert(charset.is_ascii());
    let mut id = String::new();
    let mut n: usize = 0;
    assert(id@ =~= id_of_draws(draws@.take(0)));
    while n < draws.len()
        invariant
            n <= draws.len(),
            are_draws(draws@),
            charset@ == id_charset(),
            charset@.len() == ID_CHARSET_LENGTH,
            charset.is_ascii(),
            id@ == id_of_draws(draws@.take(n as int)),
        decreases draws.len() - n,
    {
        let at = draws[n];
        let one_char = charset.substring_ascii(at, at + 1);
        let ghost before = id@;
        id.append(one_char);
        proof {
            assert(one_char@ =~= seq![charset@[at as int]]);
            assert(draws@.take(n + 1) =~= draws@.take(n as int).push(at));
            assert(id@ =~= before.push(id_charset()[at as int]));
            assert(id_of_draws(draws@.take(n + 1)) =~= id_of_draws(draws@.take(n as int)).push(
                id_charset()[at as int],
            ));
        }
        n += 1;
    }
    assert(draws@.take(n as int) =~= draws@);
    id
}

/// Whether the numbers are draws that make an identifier.
fn check_draws(draws: &Vec<usize>) -> (ok: bool)
    ensures
        ok == are_draws(draws@),
{
    if draws.len() != ID_LENGTH {
        return false;
    }
    let mut n: usize = 0;
    while n < draws.len()
        invariant
            n <= draws.len(),
            draws.len() == ID_LENGTH,
            forall|i: int| 0 <= i < n ==> (#[trigger] draws@[i]) < ID_CHARSET_LENGTH,
        decreases draws.len() - n,
    {
        if draws[n] >= ID_CHARSET_LENGTH {
            return false;
        }
        n += 1;
    }
    true
}

/// Makes an identifier of the numbers drawn for it: each number picks the
/// character at its place among the letters and digits. There must be 32
/// numbers, each below 62; of any others no identifier is made.
pub fn id_from_draws(draws: &Vec<usize>) -> (id: Option<String>)
    ensures
        match id {
            Some(s) => are_draws(draws@) && s@ == id_of_draws(draws@) && is_id(s@),
            None => !are_draws(draws@),
        },
{
    if !check_draws(draws) {
        return None;
    }
    proof {
        lemma_id_of_draws(draws@);
    }
    Some(spell_id(draws))
}

/// The draws with the first one moved on to the next character, the last
/// character being followed by the first.
pub open spec fn moved_on(draws: Seq<usize>) -> Seq<usize> {
    draws.update(0, ((draws[0] + 1) % (ID_CHARSET_LENGTH as int)) as usize)
}

/// The identifier that draws make when it must not be `unlike`: what the
/// draws spell, or, should that be `unlike` itself, what they spell with
/// the first draw moved on.
pub open spec fn id_unlike(unlike: Seq<char>, draws: Seq<usize>) -> Seq<char> {
    if id_of_draws(draws) == unlike {
        id_of_draws(moved_on(draws))
    } else {
        id_of_draws(draws)
    }
}

/// An identifier made to be unlike another is an identifier, and unlike it.
pub proof fn lemma_id_unlike(unlike: Seq<char>, draws: Seq<usize>)
    requires
        are_draws(draws),
    ensures
        are_draws(moved_on(draws)),
        is_id(id_unlike(unlike, draws)),
        id_unlike(unlike, draws) != unlike,
{
    let moved = moved_on(draws);
    assert(are_draws(moved)) by {
        assert forall|i: int| 0 <= i < moved.len() implies (#[trigger] moved[i]) < ID_CHARSET_LENGTH by {
            if i > 0 {
                assert(moved[i] == draws[i]);
            }
        }
    }
    lemma_id_of_draws(draws);
    lemma_id_of_draws(moved);
    if id_of_draws(draws) == unlike {
        lemma_draws_differ(draws[0] as int, moved[0] as int);
        assert(id_of_draws(moved)[0] != id_of_draws(draws)[0]);
    }
}

/// Spells the identifier, unlike another, of draws that are known to make one.
fn spell_id_unlike(unlike: &str, draws: &Vec<usize>) -> (id: String)
    requires
        are_draws(draws@),
    ensures
        id@ == id_unlike(unlike@, draws@),
{
    let id = spell_id(draws);
    if !same_str(id.as_str(), unlike) {
        return id;
    }
    let mut moved: Vec<usize> = Vec::new();
    let first = if draws[0] + 1 == ID_CHARSET_LENGTH {
        0
    } else {
        draws[0] + 1
    };
    moved.push(first);
    let mut n: usize = 1;
    while n < draws.len()
        invariant
            1 <= n <= draws.len(),
            moved@ == moved_on(draws@).take(n as int),
        decreases draws.len() - n,
    {
        moved.push(draws[n]);
        assert(moved_on(draws@).take(n + 1) =~= moved_on(draws@).take(n as int).push(draws@[n as int]));
        n += 1;
    }
    proof {
        assert(moved_on(draws@).take(n as int) =~= moved_on(draws@));
        lemma_id_unlike(unlike@, draws@);
    }
    spell_id(&moved)
}

/// Makes an identifier of the numbers drawn for it that is not `unlike`:
/// where the draws spell `unlike`, the first of them is moved on to the
/// next character. There must be 32 numbers, each below 62.
pub fn id_from_draws_unlike(unlike: &str, draws: &Vec<usize>) -> (id: Option<String>)
    ensures
        match id {
            Some(s) => are_draws(draws@) && s@ == id_unlike(unlike@, draws@) && is_id(s@) && s@
                != unlike@,
            None => !are_draws(draws@),
        },
{
    if !check_draws(draws) {
        return None;
    }
    proof {
        lemma_id_unlike(unlike@, draws@);
    }
    Some(spell_id_unlike(unlike, draws))
}

/// Draws the numbers for an identifier: 32 of them, each below 62.
fn draw_numbers() -> (draws: Vec<usize>)
    ensures
        are_draws(draws@),
{
    let mut draws: Vec<usize> = Vec::new();
    while draws.len() < ID_LENGTH
        invariant
            draws.len() <= ID_LENGTH,
            forall|i: int| 0 <= i < draws@.len() ==> (#[trigger] draws@[i]) < ID_CHARSET_LENGTH,
        decreases ID_LENGTH - draws.len(),
    {
        draws.push(random_below(ID_CHARSET_LENGTH));
    }
    draws
}

/// Draws a fresh identifier: 32 characters, each picked at random among the
/// ASCII letters and digits.
pub fn generate_id() -> (id: String)
    ensures
        is_id(id@),
{
    let draws = draw_numbers();
    proof {
        lemma_id_of_draws(draws@);
    }
    spell_id(&draws)
}

/// Draws a fresh identifier that is not `unlike`.
pub fn generate_id_unlike(unlike: &str) -> (id: String)
    ensures
        is_id(id@),
        id@ != unlike@,
{
    let draws = draw_numbers();
    proof {
        lemma_id_unlike(unlike@, draws@);
    }
    spell_id_unlike(unlike, &draws)
}

/// An access token, with the device it was handed to.
#[derive(Debug)]
pub struct AccessToken {
    device_name: String,
    token: String,
    created_at: SystemTime,
    last_use: SystemTime,
}

/// An `AccessToken` as a plain value.
pub struct AccessTokenView {
    pub device_name: Seq<char>,
    pub token: Seq<char>,
    pub created_at: SystemTime,
    pub last_use: SystemTime,
}

impl View for AccessToken {
    type V = AccessTokenView;

    closed spec fn view(&self) -> AccessTokenView {
        AccessTokenView {
            device_name: self.device_name@,
            token: self.token@,
            created_at: self.created_at,
            last_use: self.last_use,
        }
    }
}

impl AccessToken {
    /// Mints a token for a device. It was created, and last used, now.
    pub fn new(device_name: String) -> (token: Self)
        ensures
            token@.device_name == device_name@,
            is_id(token@.token),
            token@.last_use == token@.created_at,
    {
        let now = current_time();
        Self { device_name, token: generate_id(), created_at: now, last_use: now }
    }

    /// A token as it was stored.
    pub fn restore(
        device_name: String,
        token: String,
        created_at: SystemTime,
        last_use: SystemTime,
    ) -> (restored: Self)
        ensures
            restored@ == (AccessTokenView {
                device_name: device_name@,
                token: token@,
                created_at,
                last_use,
            }),
    {
        Self { device_name, token, created_at, last_use }
    }

    /// Notes that the token was used now.
    fn touch(&mut self)
        ensures
            final(self)@.device_name == old(self)@.device_name,
            final(self)@.token == old(self)@.token,
            final(self)@.created_at == old(self)@.created_at,
    {
        self.mark_used(current_time());
    }

    /// The token itself.
    pub fn token(&self) -> (token: &str)
        ensures
            token@ == self@.token,
    {
        self.token.as_str()
    }

    /// The device that the token was handed to.
    pub fn device_name(&self) -> (name: &str)
        ensures
            name@ == self@.device_name,
    {
        self.device_name.as_str()
    }

    /// When the token was minted.
    pub fn created_at(&self) -> (at: SystemTime)
        ensures
            at == self@.created_at,
    {
        self.created_at
    }

    /// When the token was last presented.
    pub fn last_use(&self) -> (at: SystemTime)
        ensures
            at == self@.last_use,
    {
        self.last_use
    }
}

/// The tokens of a vector as plain values.
pub open spec fn token_views(tokens: Seq<AccessToken>) -> Seq<AccessTokenView> {
    tokens.map_values(|t: AccessToken| t@)
}

/// The position of the first token of the list whose value is `token`.
pub open spec fn first_with_token(tokens: Seq<AccessTokenView>, token: Seq<char>) -> Option<int> {
    if exists|i: int| 0 <= i < tokens.len() && (#[trigger] tokens[i]).token == token {
        Some(
            choose|i: int|
                0 <= i < tokens.len() && (#[trigger] tokens[i]).token == token && forall|j: int|
                    0 <= j < i ==> (#[trigger] tokens[j]).token != token,
        )
    } else {
        None
    }
}

/// What the server keeps between runs: the access tokens it has handed out.
#[derive(Debug)]
pub struct AppData {
    access_tokens: Vec<AccessToken>,
}

impl View for AppData {
    type V = Seq<AccessTokenView>;

    closed spec fn view(&self) -> Seq<AccessTokenView> {
        token_views(self.access_tokens@)
    }
}

impl AppData {
    /// No token yet.
    pub fn empty() -> (data: Self)
        ensures
            data@ == Seq::<AccessTokenView>::empty(),
    {
        let data = Self { access_tokens: Vec::new() };
        assert(data@ =~= Seq::empty());
        data
    }

    /// The tokens as they were stored.
    pub fn from_tokens(access_tokens: Vec<AccessToken>) -> (data: Self)
        ensures
            data@ == token_views(access_tokens@),
    {
        Self { access_tokens }
    }

    /// The tokens, oldest first.
    pub fn access_tokens(&self) -> (tokens: &Vec<AccessToken>)
        ensures
            token_views(tokens@) == self@,
    {
        &self.access_tokens
    }

    /// Mints a token for a device and adds it behind the others.
    pub fn create_access_token(&mut self, device_name: String) -> (token: &AccessToken)
        ensures
            final(self)@ == old(self)@.push(token@),
            token@.device_name == device_name@,
            is_id(token@.token),
            token@.last_use == token@.created_at,
    {
        let ghost before = self@;
        self.access_tokens.push(AccessToken::new(device_name));
        let last = self.access_tokens.len() - 1;
        assert(self@ =~= before.push(self.access_tokens@[last as int]@));
        &self.access_tokens[last]
    }

    /// Looks a token up by its value and notes that it was used now. Of
    /// several tokens with one value, the oldest is taken.
    pub fn get_access_token(&mut self, token: &str) -> (found: Option<&AccessToken>)
        ensures
            final(self)@.len() == old(self)@.len(),
            match first_with_token(old(self)@, token@) {
                None => found is None && final(self)@ == old(self)@,
                Some(at) => {
                    &&& found is Some
                    &&& found.unwrap()@ == final(self)@[at]
                    &&& final(self)@[at].token == token@
                    &&& final(self)@[at].device_name == old(self)@[at].device_name
                    &&& final(self)@[at].created_at == old(self)@[at].created_at
                    &&& forall|i: int|
                        0 <= i < old(self)@.len() && i != at ==> final(self)@[i] == old(self)@[i]
                },
            },
    {
        match self.position_of(token) {
            None => None,
            Some(at) => {
                let ghost tokens = self.access_tokens@;
                let used = &mut self.access_tokens[at];
                used.touch();
                assert forall|k: int| 0 <= k < tokens.len() && k != at implies self@[k]
                    == token_views(tokens)[k] by {
                    assert(self.access_tokens@[k] == tokens[k]);
                }
                Some(&self.access_tokens[at])
            },
        }
    }

    /// Where the oldest token with this value stands.
    fn position_of(&self, token: &str) -> (found: Option<usize>)
        ensures
            match found {
                Some(at) => first_with_token(self@, token@) == Some(at as int) && at < self@.len()
                    && self@[at as int].token == token@,
                None => first_with_token(self@, token@) is None,
            },
    {
        let mut i: usize = 0;
        while i < self.access_tokens.len()
            invariant
                i <= self.access_tokens.len(),
                forall|j: int| 0 <= j < i ==> (#[trigger] self@[j]).token != token@,
            decreases self.access_tokens.len() - i,
        {
            if same_str(self.access_tokens[i].token.as_str(), token) {
                proof {
                    assert(self@[i as int].token == token@);
                    let at = first_with_token(self@, token@).unwrap();
                    assert(at == i) by {
                        if at < i {
                            assert(self@[at].token != token@);
                        }
                        if i < at {
                            assert(self@[i as int].token != token@);
                        }
                    }
                }
                return Some(i);
            }
            i += 1;
        }
        None
    }

    /// Hands a device an access token, if the secret that it presents is the
    /// server's. The token is added behind the others.
    pub fn request_access_token(
        &mut self,
        secret_password: &str,
        expected_secret: &str,
        device_name: String,
    ) -> (issued: Result<String, SyncError>)
        ensures
            match issued {
                Ok(token) => {
                    &&& secret_password@ == expected_secret@
                    &&& is_id(token@)
                    &&& final(self)@.len() == old(self)@.len() + 1
                    &&& final(self)@.drop_last() == old(self)@
                    &&& final(self)@.last().token == token@
                    &&& final(self)@.last().device_name == device_name@
                },
                Err(e) => {
                    &&& secret_password@ != expected_secret@
                    &&& e@ == crate::errors::SyncErrorView::InvalidSecret
                    &&& final(self)@ == old(self)@
                },
            },
    {
        if !same_str(secret_password, expected_secret) {
            return Err(SyncError::InvalidSecret);
        }
        let ghost before = self@;
        let token = self.create_access_token(device_name).token().to_owned();
        assert(self@.drop_last() =~= before);
        Ok(token)
    }

    /// Lets a request through if its access token is one that was handed
    /// out, and notes the use.
    pub fn authenticate(&mut self, bearer_token: &str) -> (outcome: Result<(), SyncError>)
        ensures
            final(self)@.len() == old(self)@.len(),
            match first_with_token(old(self)@, bearer_token@) {
                None => outcome matches Err(SyncError::InvalidAccessToken) && final(self)@ == old(
                    self,
                )@,
                Some(_) => outcome is Ok,
            },
    {
        match self.get_access_token(bearer_token) {
            Some(_) => Ok(()),
            None => Err(SyncError::InvalidAccessToken),
        }
    }
}

impl AccessToken {
    /// Notes when the token was last used. Nothing else of it changes.
    pub fn mark_used(&mut self, at: SystemTime)
        ensures
            final(self)@ == (AccessTokenView { last_use: at, ..old(self)@ }),
    {
        self.last_use = at;
    }
}

} // verus!
