use vstd::prelude::*;

verus! {

/// Relies on uuid::Uuid::new_v4 (and Uuid::as_u128): a random identifier. The
/// version and variant bits that new_v4 ORs in (0x4000_8000_0000_0000_0000) make
/// the value nonzero, so a fresh id is never the nil id.
#[verifier::external_body]
pub(crate) fn fresh_id() -> (r: u128)
    ensures
        r != 0,
{
    uuid::Uuid::new_v4().as_u128()
}

/// The platforms an account or a task can belong to.
#[derive(Clone, Copy, Debug, PartialEq, Eq, Structural, Hash)]
pub enum SocialMedia {
    Youtube,
    X,
    Instagram,
    Facebook,
}

impl SocialMedia {
    /// The platform's display name.
    pub fn name(&self) -> (r: &'static str)
        ensures
            *self == SocialMedia::Youtube ==> r@ == "Youtube"@,
            *self == SocialMedia::X ==> r@ == "X"@,
            *self == SocialMedia::Instagram ==> r@ == "Instagram"@,
            *self == SocialMedia::Facebook ==> r@ == "Facebook"@,
    {
        match self {
            SocialMedia::Youtube => "Youtube",
            SocialMedia::X => "X",
            SocialMedia::Instagram => "Instagram",
            SocialMedia::Facebook => "Facebook",
        }
    }
}

/// A social-media account: bound to exactly one profile and one platform.
#[derive(Clone, Debug)]
pub struct BriefCase {
    pub id: u128,
    pub name: String,
    pub platform: SocialMedia,
    pub profile_id: u128,
    pub user_name: String,
}

impl BriefCase {
    /// A new account with a fresh id.
    pub fn new(name: String, platform: SocialMedia, profile_id: u128, user_name: String) -> (r:
        BriefCase)
        ensures
            r.id != 0,
            r.name == name,
            r.platform == platform,
            r.profile_id == profile_id,
            r.user_name == user_name,
    {
        BriefCase { id: fresh_id(), name, platform, profile_id, user_name }
    }

    /// A copy of this account, field for field.
    pub fn duplicate(&self) -> (r: BriefCase)
        ensures
            r == *self,
    {
        BriefCase {
            id: self.id,
            name: self.name.clone(),
            platform: self.platform,
            profile_id: self.profile_id,
            user_name: self.user_name.clone(),
        }
    }
}

/// An isolated browser session; the accounts that name its id belong to it.
#[derive(Clone, Debug)]
pub struct Profile {
    pub profile_id: u128,
    pub profile_name: String,
    pub profile_path: String,
}

/// The ids of the accounts in `cases` that belong to `profile_id`, in order.
pub open spec fn ids_of_profile(cases: Seq<BriefCase>, profile_id: u128) -> Seq<u128>
    decreases cases.len(),
{
    if cases.len() == 0 {
        seq![]
    } else {
        let rest = ids_of_profile(cases.drop_last(), profile_id);
        if cases.last().profile_id == profile_id {
            rest.push(cases.last().id)
        } else {
            rest
        }
    }
}

/// The accounts in `cases` on `platform`, in order.
pub open spec fn on_platform(cases: Seq<BriefCase>, platform: SocialMedia) -> Seq<BriefCase>
    decreases cases.len(),
{
    if cases.len() == 0 {
        seq![]
    } else {
        let rest = on_platform(cases.drop_last(), platform);
        if cases.last().platform == platform {
            rest.push(cases.last())
        } else {
            rest
        }
    }
}

impl Profile {
    /// A new profile with a fresh id.
    pub fn new(profile_name: String, profile_path: String) -> (r: Profile)
        ensures
            r.profile_id != 0,
            r.profile_name == profile_name,
            r.profile_path == profile_path,
    {
        Profile { profile_id: fresh_id(), profile_name, profile_path }
    }

    /// The ids of the accounts of `all_brief_cases` that belong to this profile.
    pub fn get_all_brief_case_ids(&self, all_brief_cases: &Vec<BriefCase>) -> (r: Vec<u128>)
        ensures
            r@ == ids_of_profile(all_brief_cases@, self.profile_id),
    {
        let mut r: Vec<u128> = Vec::new();
        let mut i: usize = 0;
        while i < all_brief_cases.len()
            invariant
                i <= all_brief_cases.len(),
                r@ == ids_of_profile(all_brief_cases@.subrange(0, i as int), self.profile_id),
            decreases all_brief_cases.len() - i,
        {
            proof {
                assert(all_brief_cases@.subrange(0, i + 1).drop_last() =~= all_brief_cases@.subrange(
                    0,
                    i as int,
                ));
            }
            if all_brief_cases[i].profile_id == self.profile_id {
                r.push(all_brief_cases[i].id);
            }
            i = i + 1;
        }
        proof {
            assert(all_brief_cases@.subrange(0, i as int) =~= all_brief_cases@);
        }
        r
    }
}

/// A target post: a link, the comments to post there, its platform and the
/// accounts on that platform, resolved once when the task is built.
#[derive(Clone, Debug)]
pub struct Task {
    pub task_id: u128,
    pub link: String,
    pub comments: Vec<String>,
    pub social_media: SocialMedia,
    pub related_brief_cases: Vec<BriefCase>,
    pub comment_index: usize,
}

impl Task {
    /// A new task whose accounts are those of `all_brief_cases` on `social_media`,
    /// in their order there.
    pub fn new(
        link: String,
        comments: Vec<String>,
        social_media: SocialMedia,
        all_brief_cases: &[BriefCase],
    ) -> (r: Task)
        ensures
            r.task_id != 0,
            r.link == link,
            r.comments == comments,
            r.social_media == social_media,
            r.related_brief_cases@ == on_platform(all_brief_cases@, social_media),
            r.comment_index == 0,
    {
        let mut related: Vec<BriefCase> = Vec::new();
        let mut i: usize = 0;
        while i < all_brief_cases.len()
            invariant
                i <= all_brief_cases@.len(),
                related@ == on_platform(all_brief_cases@.subrange(0, i as int), social_media),
            decreases all_brief_cases@.len() - i,
        {
            proof {
                assert(all_brief_cases@.subrange(0, i + 1).drop_last() =~= all_brief_cases@.subrange(
                    0,
                    i as int,
                ));
            }
            if all_brief_cases[i].platform == social_media {
                related.push(all_brief_cases[i].duplicate());
            }
            i = i + 1;
        }
        proof {
            assert(all_brief_cases@.subrange(0, i as int) =~= all_brief_cases@);
        }
        Task {
            task_id: fresh_id(),
            link,
            comments,
            social_media,
            related_brief_cases: related,
            comment_index: 0,
        }
    }

    /// The length of the task's account list.
    pub fn briefcase_count(&self) -> (r: usize)
        ensures
            r == self.related_brief_cases@.len(),
    {
        self.related_brief_cases.len()
    }
}

} // verus!
