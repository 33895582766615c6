//! The first screen: typing the access token (shown masked), asking for it
//! to be checked, or choosing the demo mode.
use vstd::prelude::*;
use vstd::string::StringExecFns;
use vstd::utf8::encode_utf8;
use crate::text::{push_char, push_str};

verus! {

/// How setup ends: with a token to use, or in demo mode.
pub enum SetupResult {
    Token(String),
    Demo,
}

/// The keys the setup screen reacts to.
#[derive(Debug, Clone, Copy, PartialEq, Eq, Structural)]
pub enum SetupKey {
    Char(char),
    Backspace,
    Enter,
    Esc,
    Other,
}

/// What came back from checking the token against the service.
pub enum ValidationOutcome {
    /// A success status.
    Accepted,
    /// Status 401.
    Unauthorized,
    /// Another status, with its text.
    Rejected(String),
    /// The request failed, with the error's text.
    Failed(String),
}

/// Where setup goes next.
pub enum SetupStep {
    Continue,
    Finished(SetupResult),
    Cancelled,
}

/// The text `str::trim` gives: `s` without leading and trailing white space.
pub uninterp spec fn trimmed(s: Seq<char>) -> Seq<char>;

/// `str::trim`: the argument with leading and trailing white space cut off.
/// Claimed: the result is the named trim of the argument, and no longer than
/// the argument (it is a slice of it). Which characters count as white
/// space (Unicode's White_Space) is left to the name.
#[verifier::external_body]
pub(crate) fn trim(s: &str) -> (r: &str)
    ensures
        r@ == trimmed(s@),
        r@.len() <= s@.len(),
{
    s.trim()
}

/// `String::pop`, its result dropped. Claimed: the last character, if
/// any, is removed.
#[verifier::external_body]
pub(crate) fn pop_char(s: &mut String)
    ensures
        final(s)@ == if old(s)@.len() > 0 { old(s)@.drop_last() } else { old(s)@ },
{
    s.pop();
}

pub struct SetupState {
    pub token: String,
    pub error_msg: String,
    pub is_validating: bool,
}

/// The setup state as mathematical values.
pub struct SetupView {
    pub token: Seq<char>,
    pub error_msg: Seq<char>,
    pub is_validating: bool,
}

impl View for SetupState {
    type V = SetupView;

    open spec fn view(&self) -> SetupView {
        SetupView {
            token: self.token@,
            error_msg: self.error_msg@,
            is_validating: self.is_validating,
        }
    }
}

/// How a key ends the screen, if it does.
pub enum Halt {
    Demo,
    Cancel,
}

/// The token is blank: empty, or nothing but white space.
pub open spec fn blank(t: Seq<char>) -> bool {
    t.len() == 0 || trimmed(t).len() == 0
}

/// One key: 'd' with no token typed chooses the demo; a character is typed
/// and clears the error; Backspace deletes the last character and clears
/// the error; Enter asks for the check (or complains of an empty token);
/// Esc cancels. `pending` records that a check was asked for.
pub open spec fn setup_key(v: SetupView, pending: bool, k: SetupKey) -> (SetupView, bool, Option<Halt>) {
    match k {
        SetupKey::Char(c) => if (c == 'd' || c == 'D') && blank(v.token) {
            (v, pending, Some(Halt::Demo))
        } else {
            (SetupView { token: v.token.push(c), error_msg: Seq::empty(), ..v }, pending, None)
        },
        SetupKey::Backspace => (
            SetupView {
                token: if v.token.len() > 0 { v.token.drop_last() } else { v.token },
                error_msg: Seq::empty(),
                ..v
            },
            pending,
            None,
        ),
        SetupKey::Enter => if blank(v.token) {
            (SetupView { error_msg: "Token cannot be empty"@, ..v }, pending, None)
        } else {
            (v, true, None)
        },
        SetupKey::Esc => (v, pending, Some(Halt::Cancel)),
        SetupKey::Other => (v, pending, None),
    }
}

/// The first `n` keys of a batch, stopping at the first that ends the
/// screen.
pub open spec fn setup_keys(v: SetupView, keys: Seq<SetupKey>, n: nat) -> (SetupView, bool, Option<Halt>)
    decreases n,
{
    if n == 0 {
        (v, false, None)
    } else {
        let prev = setup_keys(v, keys, (n - 1) as nat);
        if prev.2 is Some {
            prev
        } else {
            setup_key(prev.0, prev.1, keys[n - 1])
        }
    }
}

/// After a batch of keys: the check starts when it was asked for.
pub open spec fn after_keys(v: SetupView, keys: Seq<SetupKey>) -> (SetupView, Option<Halt>) {
    let r = setup_keys(v, keys, keys.len());
    if r.2 is None && r.1 {
        (SetupView { is_validating: true, ..r.0 }, None)
    } else {
        (r.0, r.2)
    }
}

/// The error message after a failed check.
pub open spec fn validation_error(outcome: ValidationOutcome) -> Seq<char> {
    match outcome {
        ValidationOutcome::Accepted => Seq::empty(),
        ValidationOutcome::Unauthorized => "Invalid Access Token"@,
        ValidationOutcome::Rejected(status) => "API Error: "@ + status@,
        ValidationOutcome::Failed(e) => "Network/Request Error: "@ + e@,
    }
}

pub open spec fn min_nat(a: nat, b: nat) -> nat {
    if a <= b { a } else { b }
}

impl SetupState {
    pub fn new() -> (r: Self)
        ensures
            r@.token == Seq::<char>::empty(),
            r@.error_msg == Seq::<char>::empty(),
            !r@.is_validating,
    {
        SetupState { token: String::new(), error_msg: String::new(), is_validating: false }
    }

    /// Handles the keys read in one round (see `setup_key`); the check
    /// starts after the round when it was asked for.
    pub fn handle_keys(&mut self, keys: &Vec<SetupKey>) -> (step: SetupStep)
        ensures
            final(self)@ == after_keys(old(self)@, keys@).0,
            match step {
                SetupStep::Continue => after_keys(old(self)@, keys@).1 is None,
                SetupStep::Finished(SetupResult::Demo) => after_keys(old(self)@, keys@).1 matches Some(
                    Halt::Demo,
                ),
                SetupStep::Finished(SetupResult::Token(_)) => false,
                SetupStep::Cancelled => after_keys(old(self)@, keys@).1 matches Some(Halt::Cancel),
            },
    {
        let mut should_validate = false;
        let mut i: usize = 0;
        while i < keys.len()
            invariant
                i <= keys@.len(),
                setup_keys(old(self)@, keys@, i as nat) == (self@, should_validate, None::<Halt>),
            decreases keys@.len() - i,
        {
            match keys[i] {
                SetupKey::Char(c) => {
                    if (c == 'd' || c == 'D') && trim(self.token.as_str()).is_empty() {
                        proof {
                            assert(setup_keys(old(self)@, keys@, (i + 1) as nat) == setup_key(
                                self@,
                                should_validate,
                                keys@[i as int],
                            ));
                            lemma_setup_keys_halted(old(self)@, keys@, (i + 1) as nat);
                        }
                        return SetupStep::Finished(SetupResult::Demo);
                    }
                    push_char(&mut self.token, c);
                    self.error_msg = String::new();
                },
                SetupKey::Backspace => {
                    pop_char(&mut self.token);
                    self.error_msg = String::new();
                },
                SetupKey::Enter => {
                    if trim(self.token.as_str()).is_empty() {
                        self.error_msg = String::from_str("Token cannot be empty");
                    } else {
                        should_validate = true;
                    }
                },
                SetupKey::Esc => {
                    proof {
                        assert(setup_keys(old(self)@, keys@, (i + 1) as nat) == setup_key(
                            self@,
                            should_validate,
                            keys@[i as int],
                        ));
                        lemma_setup_keys_halted(old(self)@, keys@, (i + 1) as nat);
                    }
                    return SetupStep::Cancelled;
                },
                SetupKey::Other => {},
            }
            i += 1;
            proof {
                assert(self@ =~= setup_keys(old(self)@, keys@, i as nat).0);
            }
        }
        if should_validate {
            self.is_validating = true;
        }
        proof {
            assert(self@ =~= after_keys(old(self)@, keys@).0);
        }
        SetupStep::Continue
    }

    /// The check came back: on success setup ends with the trimmed token;
    /// otherwise the error is shown and typing goes on.
    pub fn finish_validation(&mut self, outcome: ValidationOutcome) -> (step: SetupStep)
        ensures
            !final(self)@.is_validating,
            final(self)@.token == old(self)@.token,
            match outcome {
                ValidationOutcome::Accepted => final(self)@.error_msg == old(self)@.error_msg && (
                step matches SetupStep::Finished(SetupResult::Token(t)) && t@ == trimmed(
                    old(self)@.token,
                )),
                _ => final(self)@.error_msg == validation_error(outcome) && step
                    is Continue,
            },
    {
        self.is_validating = false;
        match outcome {
            ValidationOutcome::Accepted => {
                let t = String::from_str(trim(self.token.as_str()));
                SetupStep::Finished(SetupResult::Token(t))
            },
            ValidationOutcome::Unauthorized => {
                self.error_msg = String::from_str("Invalid Access Token");
                SetupStep::Continue
            },
            ValidationOutcome::Rejected(status) => {
                let mut m = String::from_str("API Error: ");
                push_str(&mut m, status.as_str());
                self.error_msg = m;
                SetupStep::Continue
            },
            ValidationOutcome::Failed(e) => {
                let mut m = String::from_str("Network/Request Error: ");
                push_str(&mut m, e.as_str());
                self.error_msg = m;
                SetupStep::Continue
            },
        }
    }

    /// The token without leading and trailing white space, as it is sent
    /// for the check.
    pub fn trimmed_token(&self) -> (r: String)
        ensures
            r@ == trimmed(self.token@),
    {
        String::from_str(trim(self.token.as_str()))
    }

    /// The token as shown in a field `inner_width` columns wide: one '*'
    /// per byte of the token, only the last `inner_width` of them when it
    /// does not fit.
    pub fn masked_token(&self, inner_width: usize) -> (r: String)
        ensures
            r@ == Seq::new(
                min_nat((encode_utf8(self.token@).len() as usize) as nat, inner_width as nat),
                |i: int| '*',
            ),
    {
        let n = self.token.as_str().len();
        let shown = if n <= inner_width { n } else { inner_width };
        let mut r = String::new();
        let mut i: usize = 0;
        while i < shown
            invariant
                i <= shown,
                r@ == Seq::new(i as nat, |j: int| '*'),
            decreases shown - i,
        {
            push_char(&mut r, '*');
            i += 1;
            assert(r@ =~= Seq::new(i as nat, |j: int| '*'));
        }
        r
    }
}

proof fn lemma_setup_keys_halted(v: SetupView, keys: Seq<SetupKey>, n: nat)
    requires
        n <= keys.len(),
        setup_keys(v, keys, n).2 is Some,
    ensures
        setup_keys(v, keys, keys.len()) == setup_keys(v, keys, n),
    decreases keys.len() - n,
{
    if n < keys.len() {
        lemma_setup_keys_halted(v, keys, n + 1);
    }
}

/// Typing a character and deleting it gives back the token typed so far,
/// with the error cleared; a 'd' typed with no token does not count, as it
/// picks the demo.
pub proof fn law_type_then_backspace(v: SetupView, pending: bool, c: char)
    requires
        !((c == 'd' || c == 'D') && blank(v.token)),
    ensures
        setup_key(setup_key(v, pending, SetupKey::Char(c)).0, pending, SetupKey::Backspace) == (
        SetupView { error_msg: Seq::empty(), ..v }, pending, None::<Halt>),
{
    assert(v.token.push(c).drop_last() =~= v.token);
}

/// Esc ends the screen whatever was typed before it in the same round,
/// unless the demo was picked earlier; what follows it is ignored.
pub proof fn law_escape_cancels(v: SetupView, keys: Seq<SetupKey>, n: nat)
    requires
        n < keys.len(),
        keys[n as int] == SetupKey::Esc,
        setup_keys(v, keys, n).2 is None,
    ensures
        after_keys(v, keys) == (setup_keys(v, keys, n).0, Some(Halt::Cancel)),
{
    assert(setup_keys(v, keys, n + 1).2 == Some(Halt::Cancel));
    lemma_setup_keys_halted(v, keys, n + 1);
}

/// With nothing typed, 'd' (or 'D') picks the demo, and Enter complains of
/// an empty token instead of asking for the check.
pub proof fn law_empty_token(v: SetupView, pending: bool)
    requires
        v.token.len() == 0,
    ensures
        setup_key(v, pending, SetupKey::Char('d')).2 == Some(Halt::Demo),
        setup_key(v, pending, SetupKey::Char('D')).2 == Some(Halt::Demo),
        setup_key(v, pending, SetupKey::Enter) == (
        SetupView { error_msg: "Token cannot be empty"@, ..v }, pending, None::<Halt>),
{
}

/// Typed characters other than a demo pick are appended to the token, one
/// by one, and clear the error; Enter on a token that is not blank asks for
/// the check, leaving the token as typed.
pub proof fn law_typing_then_enter(v: SetupView, c: char)
    requires
        !((c == 'd' || c == 'D') && blank(v.token)),
        !blank(v.token.push(c)),
    ensures
        after_keys(v, seq![SetupKey::Char(c), SetupKey::Enter]) == (
        SetupView { token: v.token.push(c), error_msg: Seq::empty(), is_validating: true }, None::<
            Halt,
        >),
{
    let keys = seq![SetupKey::Char(c), SetupKey::Enter];
    assert(keys[0] == SetupKey::Char(c));
    assert(keys[1] == SetupKey::Enter);
    assert(setup_keys(v, keys, 0) == (v, false, None::<Halt>));
    assert(setup_keys(v, keys, 1) == (
    SetupView { token: v.token.push(c), error_msg: Seq::empty(), ..v }, false, None::<Halt>));
}

} // verus!
