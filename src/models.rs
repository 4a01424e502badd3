use vstd::prelude::*;

verus! {

/// The folders of the two stacks' repositories that hold the configurations.
#[derive(Debug, Clone)]
pub struct AppConfig {
    pub folder_a: String,
    pub folder_b: String,
}

/// A request naming two stacks.
#[derive(Debug, Clone)]
pub struct GetAllDiffsPayload {
    pub stack_a: String,
    pub stack_b: String,
}

/// A request for one configuration file of two stacks.
#[derive(Debug, Clone)]
pub struct GetConfigsFromStacksPayload {
    pub stack_a: String,
    pub stack_b: String,
    pub file: String,
}

/// The two texts of one configuration file, one per stack.
#[derive(Debug, Clone)]
pub struct GetConfigsFromStacksResponse {
    pub stack_a: String,
    pub stack_b: String,
    pub file: String,
    pub config_a: String,
    pub config_b: String,
}

/// A request to compare every configuration folder of two stacks.
#[derive(Debug, Clone)]
pub struct ComputeAllDiffPayload {
    pub stack_a: String,
    pub stack_b: String,
}

/// A request to flip the review flag of a stored comparison.
#[derive(Debug, Clone)]
pub struct ToggleReviewPayload {
    pub id: String,
}

/// The answer to a review flip: how many records matched.
#[derive(Debug, Clone)]
pub struct ToggleReviewResponse {
    pub status: String,
}

/// A request for the contents at a path of a repository.
#[derive(Debug, Clone)]
pub struct PayloadContent {
    pub repo_name: String,
    pub path: String,
}

/// A short JSON message.
#[derive(Debug, Clone)]
pub struct Message {
    pub message: String,
}

/// One entry of a repository listing: a file or a directory. `item_type` is
/// the hosting API's `type` field (`"file"`, `"dir"`, ...).
#[derive(Debug, Clone)]
pub struct SerializableContent {
    pub name: String,
    pub path: String,
    pub content: Option<String>,
    pub url: String,
    pub html_url: Option<String>,
    pub git_url: Option<String>,
    pub download_url: Option<String>,
    pub item_type: String,
}

/// A repository listing.
#[derive(Debug, Clone)]
pub struct SerializableContentItems {
    pub items: Vec<SerializableContent>,
}

/// An error answered over HTTP: a status code and a message.
#[derive(Debug, Clone)]
pub struct HttpCustomError {
    pub status: u16,
    pub message: String,
}

/// A comparison as a client sends it for storage. Times are milliseconds
/// since the Unix epoch.
#[derive(Debug)]
pub struct DiffBaseSchema {
    pub stack_a: String,
    pub stack_b: String,
    pub file: String,
    pub left_not_right: Vec<String>,
    pub right_not_left: Vec<String>,
    pub same_key_diff_value: Vec<String>,
    pub created_at: Option<i64>,
    pub updated_at: Option<i64>,
}

/// A stored comparison of one configuration file of two stacks. `id` is the
/// store's identifier in hexadecimal, `reviewed` is `"true"` or `"false"`,
/// and times are milliseconds since the Unix epoch.
#[derive(Debug)]
pub struct FileDiff {
    pub id: Option<String>,
    pub stack_a: String,
    pub stack_b: String,
    pub file: String,
    pub left_not_right: Vec<String>,
    pub right_not_left: Vec<String>,
    pub same_key_diff_value: Vec<String>,
    pub reviewed: Option<String>,
    pub created_at: Option<i64>,
    pub updated_at: Option<i64>,
}

} // verus!
