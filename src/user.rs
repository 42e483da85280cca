use vstd::prelude::*;

verus! {

/// An account of the person working in the workspace, as the desktop shell keeps it.
#[derive(Debug, Clone)]
pub struct User {
    pub id: u64,
    pub name: String,
    pub given_name: Option<String>,
    pub family_name: Option<String>,
    pub email: String,
    pub picture: String,
    pub locale: Option<String>,
    pub created_at: String,
    pub updated_at: String,
    pub access_token: String,
    pub github_access_token: Option<String>,
    pub github_username: Option<String>,
    pub current_project: Option<String>,
}

impl User {
    /// The name and e-mail address that commits made by this user are signed with.
    pub fn signature_identity(&self) -> (r: (String, String))
        ensures
            r.0@ == self.name@,
            r.1@ == self.email@,
    {
        (self.name.clone(), self.email.clone())
    }
}

impl Default for User {
    fn default() -> (r: User)
        ensures
            r.id == 0,
            r.name@.len() == 0,
            r.given_name.is_none(),
            r.family_name.is_none(),
            r.email@.len() == 0,
            r.picture@.len() == 0,
            r.locale.is_none(),
            r.created_at@.len() == 0,
            r.updated_at@.len() == 0,
            r.access_token@.len() == 0,
            r.github_access_token.is_none(),
            r.github_username.is_none(),
            r.current_project.is_none(),
    {
        User {
            id: 0,
            name: String::new(),
            given_name: None,
            family_name: None,
            email: String::new(),
            picture: String::new(),
            locale: None,
            created_at: String::new(),
            updated_at: String::new(),
            access_token: String::new(),
            github_access_token: None,
            github_username: None,
            current_project: None,
        }
    }
}

} // verus!
