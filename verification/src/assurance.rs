//! What a presenter proved: the methods, the key and the ceremony.
use vstd::prelude::*;

use crate::bytes;
use crate::bytes::bytes_equal;
use crate::claims;
use crate::claims::{claim_array, claim_number_or};

verus! {

#[derive(Clone, Copy, Debug, PartialEq, Eq, Structural)]
pub enum AssuranceLevel {
    Aal1,
    Aal2,
    Aal3,
}

impl AssuranceLevel {
    pub open spec fn rank(self) -> int {
        match self {
            AssuranceLevel::Aal1 => 1,
            AssuranceLevel::Aal2 => 2,
            AssuranceLevel::Aal3 => 3,
        }
    }

    /// Whether `self` is at least `floor`.
    pub fn reaches(self, floor: AssuranceLevel) -> (r: bool)
        ensures
            r == (self.rank() >= floor.rank()),
    {
        match floor {
            AssuranceLevel::Aal1 => true,
            AssuranceLevel::Aal2 => match self {
                AssuranceLevel::Aal1 => false,
                _ => true,
            },
            AssuranceLevel::Aal3 => match self {
                AssuranceLevel::Aal3 => true,
                _ => false,
            },
        }
    }
}

/// The level that an `acr` word names.
pub open spec fn level_named(word: Seq<u8>) -> Option<AssuranceLevel> {
    if word == bytes::text("aal1") {
        Some(AssuranceLevel::Aal1)
    } else if word == bytes::text("aal2") {
        Some(AssuranceLevel::Aal2)
    } else if word == bytes::text("aal3") {
        Some(AssuranceLevel::Aal3)
    } else {
        None
    }
}

pub fn level_from(text: &[u8]) -> (r: Option<AssuranceLevel>)
    ensures
        r == level_named(text@),
{
    if bytes_equal(text, "aal1".as_bytes()) {
        Some(AssuranceLevel::Aal1)
    } else if bytes_equal(text, "aal2".as_bytes()) {
        Some(AssuranceLevel::Aal2)
    } else if bytes_equal(text, "aal3".as_bytes()) {
        Some(AssuranceLevel::Aal3)
    } else {
        None
    }
}

/// The level that an `acr` claim names, where there is such a claim and it names one.
pub open spec fn claimed_level(json: Seq<u8>) -> Option<AssuranceLevel> {
    match claims::text_claim(json, bytes::text("acr")) {
        Some(word) => level_named(word),
        None => None,
    }
}

pub fn read_level(json: &[u8]) -> (r: Option<AssuranceLevel>)
    ensures
        r == claimed_level(json@),
{
    match claims::claim_str(json, "acr".as_bytes()) {
        Some(word) => level_from(word),
        None => None,
    }
}

/// The methods that an `amr` array can name.
#[derive(Clone, Copy, Debug, PartialEq, Eq, Structural)]
pub enum AuthMethod {
    Email,
    Pop,
    Otp,
    Hwk,
    Swk,
    User,
    Webauthn,
}

impl AuthMethod {
    pub open spec fn spec_word(self) -> &'static str {
        match self {
            AuthMethod::Email => "email",
            AuthMethod::Pop => "pop",
            AuthMethod::Otp => "otp",
            AuthMethod::Hwk => "hwk",
            AuthMethod::Swk => "swk",
            AuthMethod::User => "user",
            AuthMethod::Webauthn => "webauthn",
        }
    }

    /// The name of the method in an `amr` array.
    pub open spec fn name(self) -> Seq<u8> {
        bytes::text(self.spec_word())
    }

    pub fn as_str(self) -> (r: &'static str)
        ensures
            r == self.spec_word(),
    {
        match self {
            AuthMethod::Email => "email",
            AuthMethod::Pop => "pop",
            AuthMethod::Otp => "otp",
            AuthMethod::Hwk => "hwk",
            AuthMethod::Swk => "swk",
            AuthMethod::User => "user",
            AuthMethod::Webauthn => "webauthn",
        }
    }
}

/// Where the presenter's key lives, as far as is known.
#[derive(Clone, Copy, Debug, PartialEq, Eq, Structural)]
pub enum KeyBinding {
    Unstated,
    Software,
    Hardware,
}

/// What was proved, and when.
#[derive(Clone, Copy, Debug, PartialEq, Eq, Structural)]
pub struct Evidence {
    pub email: bool,
    pub pop: bool,
    pub otp: bool,
    pub hwk: bool,
    pub swk: bool,
    pub user: bool,
    pub webauthn: bool,
    pub binding: KeyBinding,
    pub user_verified: bool,
    pub phishing_resistant: bool,
    pub auth_time: u64,
}

impl Evidence {
    pub open spec fn has(self, m: AuthMethod) -> bool {
        match m {
            AuthMethod::Email => self.email,
            AuthMethod::Pop => self.pop,
            AuthMethod::Otp => self.otp,
            AuthMethod::Hwk => self.hwk,
            AuthMethod::Swk => self.swk,
            AuthMethod::User => self.user,
            AuthMethod::Webauthn => self.webauthn,
        }
    }

    /// Everything but the methods is as in `other`.
    pub open spec fn same_facts(self, other: Self) -> bool {
        &&& self.binding == other.binding
        &&& self.user_verified == other.user_verified
        &&& self.phishing_resistant == other.phishing_resistant
        &&& self.auth_time == other.auth_time
    }

    /// Nothing proved, at `auth_time`.
    pub fn at(auth_time: u64) -> (r: Self)
        ensures
            forall|m: AuthMethod| !r.has(m),
            r.binding == KeyBinding::Unstated,
            !r.user_verified,
            !r.phishing_resistant,
            r.auth_time == auth_time,
    {
        Evidence {
            email: false,
            pop: false,
            otp: false,
            hwk: false,
            swk: false,
            user: false,
            webauthn: false,
            binding: KeyBinding::Unstated,
            user_verified: false,
            phishing_resistant: false,
            auth_time,
        }
    }

    /// One method more.
    pub fn with(self, method: AuthMethod) -> (r: Self)
        ensures
            forall|m: AuthMethod| #[trigger] r.has(m) == (self.has(m) || m == method),
            r.same_facts(self),
    {
        let mut e = self;
        match method {
            AuthMethod::Email => e.email = true,
            AuthMethod::Pop => e.pop = true,
            AuthMethod::Otp => e.otp = true,
            AuthMethod::Hwk => e.hwk = true,
            AuthMethod::Swk => e.swk = true,
            AuthMethod::User => e.user = true,
            AuthMethod::Webauthn => e.webauthn = true,
        }
        e
    }

    /// The method that `name` names, where it names one, and what it implies: `hwk` a hardware
    /// key, `swk` a software key unless a hardware key is known, `user` a verified user,
    /// `webauthn` resistance to phishing. A name that names no method adds nothing.
    pub fn with_amr_name(self, name: &[u8]) -> (r: Self)
        ensures
            r == carrying(self, name@),
    {
        let hwk = bytes_equal(name, "hwk".as_bytes());
        let swk = bytes_equal(name, "swk".as_bytes());
        let user = bytes_equal(name, "user".as_bytes());
        let webauthn = bytes_equal(name, "webauthn".as_bytes());
        Evidence {
            email: self.email || bytes_equal(name, "email".as_bytes()),
            pop: self.pop || bytes_equal(name, "pop".as_bytes()),
            otp: self.otp || bytes_equal(name, "otp".as_bytes()),
            hwk: self.hwk || hwk,
            swk: self.swk || swk,
            user: self.user || user,
            webauthn: self.webauthn || webauthn,
            binding: if hwk {
                KeyBinding::Hardware
            } else if swk && self.binding != KeyBinding::Hardware {
                KeyBinding::Software
            } else {
                self.binding
            },
            user_verified: self.user_verified || user,
            phishing_resistant: self.phishing_resistant || webauthn,
            auth_time: self.auth_time,
        }
    }
}

/// Evidence with one more `amr` name.
pub open spec fn carrying(e: Evidence, name: Seq<u8>) -> Evidence {
    Evidence {
        email: e.email || name == bytes::text("email"),
        pop: e.pop || name == bytes::text("pop"),
        otp: e.otp || name == bytes::text("otp"),
        hwk: e.hwk || name == bytes::text("hwk"),
        swk: e.swk || name == bytes::text("swk"),
        user: e.user || name == bytes::text("user"),
        webauthn: e.webauthn || name == bytes::text("webauthn"),
        binding: if name == bytes::text("hwk") {
            KeyBinding::Hardware
        } else if name == bytes::text("swk") && e.binding != KeyBinding::Hardware {
            KeyBinding::Software
        } else {
            e.binding
        },
        user_verified: e.user_verified || name == bytes::text("user"),
        phishing_resistant: e.phishing_resistant || name == bytes::text("webauthn"),
        auth_time: e.auth_time,
    }
}

/// The names of the `amr` array of a credential.
pub open spec fn amr(json: Seq<u8>) -> Seq<Seq<u8>> {
    claims::array_items(json, bytes::text("amr"))
}

/// Evidence with all of `names`, in order.
pub open spec fn carrying_all(e: Evidence, names: Seq<Seq<u8>>) -> Evidence
    decreases names.len(),
{
    if names.len() == 0 {
        e
    } else {
        carrying(carrying_all(e, names.drop_last()), names.last())
    }
}

/// `e` with every name of the credential's `amr`.
pub fn with_amr(e: Evidence, json: &[u8]) -> (r: Evidence)
    ensures
        r == carrying_all(e, amr(json@)),
{
    let names = claim_array(json, "amr".as_bytes());
    let ghost views = amr(json@);
    let mut out = e;
    let mut i: usize = 0;
    assert(views.take(0) =~= Seq::<Seq<u8>>::empty());
    while i < names.len()
        invariant
            i <= names@.len(),
            names@.map_values(|v: Vec<u8>| v@) == views,
            out == carrying_all(e, views.take(i as int)),
        decreases names@.len() - i,
    {
        assert(views.take(i + 1).drop_last() =~= views.take(i as int));
        assert(views[i as int] == names@[i as int]@);
        out = out.with_amr_name(names[i].as_slice());
        i = i + 1;
    }
    assert(views.take(i as int) =~= views);
    out
}

/// A method is carried where its name is among the names or it was carried before, and only
/// there; the other facts follow from the names too, whatever their order.
pub proof fn amr_order_does_not_matter(start: Evidence, names: Seq<Seq<u8>>)
    ensures
        ({
            let e = carrying_all(start, names);
            &&& forall|m: AuthMethod| #[trigger]
                e.has(m) == (start.has(m) || names.contains(m.name()))
            &&& e.binding == if names.contains(bytes::text("hwk")) {
                KeyBinding::Hardware
            } else if names.contains(bytes::text("swk")) && start.binding != KeyBinding::Hardware {
                KeyBinding::Software
            } else {
                start.binding
            }
            &&& e.user_verified == (start.user_verified || names.contains(bytes::text("user")))
            &&& e.phishing_resistant == (start.phishing_resistant || names.contains(
                bytes::text("webauthn"),
            ))
            &&& e.auth_time == start.auth_time
        }),
    decreases names.len(),
{
    let e = carrying_all(start, names);
    if names.len() > 0 {
        let init = names.drop_last();
        amr_order_does_not_matter(start, init);
        let before = carrying_all(start, init);
        assert forall|n: Seq<u8>| #[trigger] names.contains(n) == (init.contains(n) || n
            == names.last()) by {
            if names.contains(n) {
                let i = choose|i: int| 0 <= i < names.len() && names[i] == n;
                if i < names.len() - 1 {
                    assert(init[i] == n);
                }
            }
            if init.contains(n) {
                let i = choose|i: int| 0 <= i < init.len() && init[i] == n;
                assert(names[i] == n);
            }
            if n == names.last() {
                assert(names[names.len() - 1] == n);
            }
        }
        assert forall|m: AuthMethod| #[trigger]
            e.has(m) == (start.has(m) || names.contains(m.name())) by {
            assert(before.has(m) == (start.has(m) || init.contains(m.name())));
        }
    }
}

/// Whether the credential's `amr` names `method`.
pub fn amr_contains(json: &[u8], method: AuthMethod) -> (r: bool)
    ensures
        r == amr(json@).contains(method.name()),
{
    let names = claim_array(json, "amr".as_bytes());
    let ghost views = amr(json@);
    let word = method.as_str().as_bytes();
    let mut i: usize = 0;
    while i < names.len()
        invariant
            i <= names@.len(),
            names@.map_values(|v: Vec<u8>| v@) == views,
            word@ == method.name(),
            forall|j: int| 0 <= j < i ==> #[trigger] views[j] != word@,
            views == amr(json@),
        decreases names@.len() - i,
    {
        assert(views[i as int] == names@[i as int]@);
        if bytes_equal(names[i].as_slice(), word) {
            return true;
        }
        i = i + 1;
    }
    false
}

/// Read a credential's assurance claims. The level that it claims is not read: a level is
/// scored from the methods.
pub fn read_evidence(json: &[u8]) -> (r: Evidence)
    ensures
        r.auth_time == claims::number_or(json@, bytes::text("auth_time"), 0),
        forall|m: AuthMethod| #[trigger] r.has(m) == amr(json@).contains(m.name()),
        r.binding == (if amr(json@).contains(bytes::text("hwk")) {
            KeyBinding::Hardware
        } else if amr(json@).contains(bytes::text("swk")) {
            KeyBinding::Software
        } else {
            KeyBinding::Unstated
        }),
        r.user_verified == amr(json@).contains(bytes::text("user")),
        r.phishing_resistant == amr(json@).contains(bytes::text("webauthn")),
{
    let auth_time: u64 = claim_number_or(json, "auth_time".as_bytes(), 0);
    let start = Evidence::at(auth_time);
    proof {
        amr_order_does_not_matter(start, amr(json@));
    }
    with_amr(start, json)
}

/// The levels are in order, and each has its own word.
pub proof fn the_levels_are_in_order()
    ensures
        level_named(bytes::text("aal1")) == Some(AssuranceLevel::Aal1),
        level_named(bytes::text("aal2")) == Some(AssuranceLevel::Aal2),
        level_named(bytes::text("aal3")) == Some(AssuranceLevel::Aal3),
        AssuranceLevel::Aal1.rank() < AssuranceLevel::Aal2.rank() < AssuranceLevel::Aal3.rank(),
{
    reveal_strlit("aal1");
    reveal_strlit("aal2");
    reveal_strlit("aal3");
    assert("aal1".is_ascii() && "aal2".is_ascii() && "aal3".is_ascii());
    assert(bytes::text("aal1")[3] == 49 && bytes::text("aal2")[3] == 50);
    assert(bytes::text("aal3")[3] == 51);
}

/// A word names a level only where it is the word of that level.
pub proof fn only_its_word_names_a_level(word: Seq<u8>)
    ensures
        level_named(word) == Some(AssuranceLevel::Aal1) ==> word == bytes::text("aal1"),
        level_named(word) == Some(AssuranceLevel::Aal2) ==> word == bytes::text("aal2"),
        level_named(word) == Some(AssuranceLevel::Aal3) ==> word == bytes::text("aal3"),
{
}

} // verus!
