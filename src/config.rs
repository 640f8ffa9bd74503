//! The user's settings, among them the registry of subscribed URLs.
use vstd::prelude::*;

use crate::error::XdevError;
use crate::globals::{is_supported_language, validate_language, DEFAULT_LANGUAGE, ZDOCS_PATH};
use crate::text::str_eq;

verus! {

/// How `{:?}` shows a list of strings.
pub uninterp spec fn debug_list(v: Seq<Seq<char>>) -> Seq<char>;

/// Relies on the `Debug` format of `Vec<String>`: each string quoted and escaped,
/// comma-separated, in brackets; an empty list is `[]`.
#[verifier::external_body]
fn debug_format_list(v: &Vec<String>) -> (r: String)
    ensures
        r@ == debug_list(v.deep_view()),
        v@.len() == 0 ==> r@ == "[]"@,
{
    format!("{:?}", v)
}

/// The settings file's contents.
pub struct Config {
    pub draft_path: String,
    pub lang: String,
    pub hosts_subscriptions: Option<Vec<String>>,
}

impl Default for Config {
    fn default() -> (r: Self)
        ensures
            r.draft_path@ == ZDOCS_PATH@,
            r.lang@ == DEFAULT_LANGUAGE@,
            r.hosts_subscriptions is Some,
            r.subscriptions() == Seq::<Seq<char>>::empty(),
    {
        let r = Config {
            draft_path: String::from_str(ZDOCS_PATH),
            lang: String::from_str(DEFAULT_LANGUAGE),
            hosts_subscriptions: Some(Vec::new()),
        };
        assert(r.subscriptions() =~= Seq::<Seq<char>>::empty());
        r
    }
}

impl Config {
    /// The subscribed URLs; an absent list is an empty one.
    pub open spec fn subscriptions(&self) -> Seq<Seq<char>> {
        match &self.hosts_subscriptions {
            Some(v) => v.deep_view(),
            None => Seq::empty(),
        }
    }

    /// Sets `draft_path` or `lang` to `value`; a language must be a supported one.
    pub fn set_field(&mut self, field: &str, value: &str) -> (r: Result<(), XdevError>)
        ensures
            field@ == "draft_path"@ ==> r is Ok && final(self).draft_path@ == value@
                && final(self).lang == old(self).lang && final(self).hosts_subscriptions == old(
                self,
            ).hosts_subscriptions,
            field@ == "lang"@ && is_supported_language(value@) ==> r is Ok && final(self).lang@
                == value@ && final(self).draft_path == old(self).draft_path
                && final(self).hosts_subscriptions == old(self).hosts_subscriptions,
            field@ == "lang"@ && !is_supported_language(value@) ==> r is Err && r->Err_0
                is UnsupportedLanguage && r->Err_0->UnsupportedLanguage_0@ == value@ && *final(
                self) == *old(self),
            field@ != "draft_path"@ && field@ != "lang"@ ==> r is Err && r->Err_0 is UnknownField
                && r->Err_0->UnknownField_0@ == field@ && *final(self) == *old(self),
    {
        proof {
            reveal_strlit("draft_path");
            reveal_strlit("lang");
            assert("draft_path"@.len() == 10);
            assert("lang"@.len() == 4);
        }
        if str_eq(field, "draft_path") {
            self.draft_path = String::from_str(value);
            Ok(())
        } else if str_eq(field, "lang") {
            if !validate_language(value) {
                return Err(XdevError::UnsupportedLanguage(String::from_str(value)));
            }
            self.lang = String::from_str(value);
            Ok(())
        } else {
            Err(XdevError::UnknownField(String::from_str(field)))
        }
    }

    /// The value of a field as text; the subscriptions as a `{:?}` list.
    pub fn get_field(&self, field: &str) -> (r: Result<String, XdevError>)
        ensures
            field@ == "draft_path"@ ==> r is Ok && r->Ok_0@ == self.draft_path@,
            field@ == "lang"@ ==> r is Ok && r->Ok_0@ == self.lang@,
            field@ == "hosts_subscriptions"@ ==> r is Ok && r->Ok_0@ == debug_list(
                self.subscriptions(),
            ),
            field@ != "draft_path"@ && field@ != "lang"@ && field@ != "hosts_subscriptions"@ ==> r
                is Err && r->Err_0 is UnknownField && r->Err_0->UnknownField_0@ == field@,
    {
        proof {
            reveal_strlit("draft_path");
            reveal_strlit("lang");
            reveal_strlit("hosts_subscriptions");
            assert("draft_path"@.len() == 10);
            assert("lang"@.len() == 4);
            assert("hosts_subscriptions"@.len() == 19);
        }
        if str_eq(field, "draft_path") {
            Ok(self.draft_path.clone())
        } else if str_eq(field, "lang") {
            Ok(self.lang.clone())
        } else if str_eq(field, "hosts_subscriptions") {
            let subs = self.get_hosts_subscriptions();
            Ok(debug_format_list(&subs))
        } else {
            Err(XdevError::UnknownField(String::from_str(field)))
        }
    }

    /// Adds `url` to the subscriptions unless it is there; says whether it was added.
    pub fn add_hosts_subscription(&mut self, url: &str) -> (r: Result<bool, XdevError>)
        ensures
            r == Ok::<bool, XdevError>(!old(self).subscriptions().contains(url@)),
            final(self).hosts_subscriptions is Some,
            final(self).subscriptions() == if old(self).subscriptions().contains(url@) {
                old(self).subscriptions()
            } else {
                old(self).subscriptions().push(url@)
            },
            final(self).draft_path == old(self).draft_path,
            final(self).lang == old(self).lang,
    {
        let mut subs = match &self.hosts_subscriptions {
            Some(v) => v.clone(),
            None => Vec::new(),
        };
        assert(subs.deep_view() =~= old(self).subscriptions());
        let u = String::from_str(url);
        let mut i: usize = 0;
        while i < subs.len()
            invariant
                i <= subs.len(),
                u@ == url@,
                *self == *old(self),
                subs.deep_view() == old(self).subscriptions(),
                forall|k: int| 0 <= k < i ==> (#[trigger] subs.deep_view()[k]) != url@,
            decreases subs.len() - i,
        {
            if subs[i] == u {
                assert(subs.deep_view()[i as int] == url@);
                self.hosts_subscriptions = Some(subs);
                return Ok(false);
            }
            i += 1;
        }
        let ghost before = subs.deep_view();
        subs.push(u);
        assert(subs.deep_view() =~= before.push(url@));
        self.hosts_subscriptions = Some(subs);
        Ok(true)
    }

    /// Removes the first occurrence of `url`; says whether there was one.
    pub fn remove_hosts_subscription(&mut self, url: &str) -> (r: Result<bool, XdevError>)
        ensures
            r == Ok::<bool, XdevError>(old(self).subscriptions().contains(url@)),
            !old(self).subscriptions().contains(url@) ==> final(self).subscriptions() == old(
                self,
            ).subscriptions(),
            old(self).subscriptions().contains(url@) ==> exists|i: int|
                0 <= i < old(self).subscriptions().len() && #[trigger] old(self).subscriptions()[i]
                    == url@ && (forall|j: int| 0 <= j < i ==> old(self).subscriptions()[j] != url@)
                    && final(self).subscriptions() == old(self).subscriptions().remove(i),
            final(self).draft_path == old(self).draft_path,
            final(self).lang == old(self).lang,
    {
        match &self.hosts_subscriptions {
            None => Ok(false),
            Some(v) => {
                let mut subs = v.clone();
                let u = String::from_str(url);
                let mut i: usize = 0;
                while i < subs.len()
                    invariant
                        i <= subs.len(),
                        u@ == url@,
                        *self == *old(self),
                        subs.deep_view() == old(self).subscriptions(),
                        forall|k: int| 0 <= k < i ==> (#[trigger] subs.deep_view()[k]) != url@,
                    decreases subs.len() - i,
                {
                    if subs[i] == u {
                        let ghost before = subs.deep_view();
                        assert(before[i as int] == url@);
                        subs.remove(i);
                        assert(subs.deep_view() =~= before.remove(i as int));
                        self.hosts_subscriptions = Some(subs);
                        return Ok(true);
                    }
                    i += 1;
                }
                Ok(false)
            },
        }
    }

    /// The subscribed URLs, in the order they were added.
    pub fn get_hosts_subscriptions(&self) -> (r: Vec<String>)
        ensures
            r.deep_view() == self.subscriptions(),
    {
        match &self.hosts_subscriptions {
            Some(v) => v.clone(),
            None => Vec::new(),
        }
    }
}

} // verus!
