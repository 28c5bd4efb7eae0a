//! The System One protocol: requests, their validation, and error replies.
use vstd::prelude::*;
use indexmap::IndexMap;
use crate::text::{join3, owned, text_of, trim, trim_text};

verus! {

pub const MAX_CHOICE_OPTIONS: usize = 255;
pub const MIN_SCORE_LEVELS: usize = 2;
pub const MAX_SCORE_LEVELS: usize = 10;

/// The map type `indexmap::IndexMap`, declared so that requests can hold
/// one; what a map holds is only known through the names below.
#[verifier::external_type_specification]
#[verifier::external_body]
#[verifier::reject_recursive_types(K)]
#[verifier::reject_recursive_types(V)]
#[verifier::reject_recursive_types(S)]
pub struct ExIndexMap<K, V, S>(IndexMap<K, V, S>);

/// The JSON value type `serde_json::Value`, declared so that a request can
/// carry its state; nothing here reads it.
#[verifier::external_type_specification]
#[verifier::external_body]
pub struct ExJsonValue(serde_json::Value);

/// Descriptions of the two answers of a yes/no question.
#[derive(Debug, Clone, PartialEq, Eq)]
pub struct NoulCriteria {
    pub true_desc: Option<String>,
    pub false_desc: Option<String>,
}

/// One question of a request.
#[derive(Debug, PartialEq)]
pub enum Question {
    Noul { instructions: Option<String>, criteria: Option<NoulCriteria> },
    Choice { instructions: Option<String>, criteria: IndexMap<String, Option<String>> },
    Score { instructions: Option<String>, criteria: Vec<String> },
}

/// A request: a model, an opaque state, and named questions in order.
#[derive(Debug, PartialEq)]
pub struct SystemOneRequest {
    pub model: String,
    pub state: serde_json::Value,
    pub questions: IndexMap<String, Question>,
}

/// The questions of a map, in its order, by id.
pub uninterp spec fn question_entries(m: IndexMap<String, Question>) -> Seq<(Seq<char>, Question)>;

/// The options of a choice, in its order, by label.
pub uninterp spec fn criteria_entries(m: IndexMap<String, Option<String>>) -> Seq<(Seq<char>, Option<Seq<char>>)>;

/// `IndexMap::len` on the questions: the number of entries.
#[verifier::external_body]
pub(crate) fn question_count(m: &IndexMap<String, Question>) -> (r: usize)
    ensures
        r == question_entries(*m).len(),
{
    m.len()
}

/// `IndexMap::get_index` on the questions: the id and question at `i` in order.
#[verifier::external_body]
pub(crate) fn question_at(m: &IndexMap<String, Question>, i: usize) -> (r: (&String, &Question))
    requires
        i < question_entries(*m).len(),
    ensures
        r.0@ == question_entries(*m)[i as int].0,
        *r.1 == question_entries(*m)[i as int].1,
{
    m.get_index(i).unwrap()
}

/// `IndexMap::len` on the options of a choice: the number of entries.
#[verifier::external_body]
pub(crate) fn criteria_count(m: &IndexMap<String, Option<String>>) -> (r: usize)
    ensures
        r == criteria_entries(*m).len(),
{
    m.len()
}

/// Whether a JSON value is an object.
pub uninterp spec fn json_is_object(v: serde_json::Value) -> bool;

/// What a JSON object holds under `key`; `None` when it has no such field.
pub uninterp spec fn json_field(v: serde_json::Value, key: Seq<char>) -> Option<serde_json::Value>;

/// `serde_json::Map::remove` on the object that `v` is: the field `key` is
/// taken out and returned, and every other field stays. A value that is no
/// object is left as it is.
#[verifier::external_body]
pub(crate) fn json_take(v: &mut serde_json::Value, key: &str) -> (r: Option<serde_json::Value>)
    ensures
        json_is_object(*final(v)) == json_is_object(*old(v)),
        !json_is_object(*old(v)) ==> *final(v) == *old(v) && r is None,
        json_is_object(*old(v)) ==> r == json_field(*old(v), key@),
        json_is_object(*old(v)) ==> forall|k: Seq<char>|
            #[trigger] json_field(*final(v), k) == if k == key@ {
                None
            } else {
                json_field(*old(v), k)
            },
{
    match v {
        serde_json::Value::Object(o) => o.remove(key),
        _ => None,
    }
}

/// `serde_json::Map::insert` on the object that `v` is: the field `key`
/// holds `val` afterwards, and every other field stays.
#[verifier::external_body]
pub(crate) fn json_put(v: &mut serde_json::Value, key: String, val: serde_json::Value)
    requires
        json_is_object(*old(v)),
    ensures
        json_is_object(*final(v)),
        forall|k: Seq<char>|
            #[trigger] json_field(*final(v), k) == if k == key@ {
                Some(val)
            } else {
                json_field(*old(v), k)
            },
{
    if let serde_json::Value::Object(o) = v {
        o.insert(key, val);
    }
}

/// `serde_json::Map::keys` on the object that `v` is: the name of each
/// field, once each; none for a value that is no object.
#[verifier::external_body]
pub(crate) fn json_keys(v: &serde_json::Value) -> (r: Vec<String>)
    ensures
        !json_is_object(*v) ==> r@.len() == 0,
        forall|i: int| 0 <= i < r@.len() ==> (#[trigger] json_field(*v, r@[i]@)) is Some,
        json_is_object(*v) ==> forall|k: Seq<char>| (#[trigger] json_field(*v, k)) is Some
            ==> exists|i: int| 0 <= i < r@.len() && r@[i]@ == k,
        forall|i: int, j: int| 0 <= i < j < r@.len() ==> r@[i]@ != r@[j]@,
{
    match v {
        serde_json::Value::Object(o) => o.keys().cloned().collect(),
        _ => Vec::new(),
    }
}

/// `IndexMap::new` for the questions: a map with no entry.
#[verifier::external_body]
pub(crate) fn question_map_new() -> (r: IndexMap<String, Question>)
    ensures
        question_entries(r).len() == 0,
{
    IndexMap::new()
}

/// `IndexMap::insert` on the questions: a new id goes last; an id that is
/// there keeps its place and takes the new question.
#[verifier::external_body]
pub(crate) fn question_insert(m: &mut IndexMap<String, Question>, key: String, value: Question)
    ensures
        (forall|j: int| 0 <= j < question_entries(*old(m)).len() ==> #[trigger] question_entries(*old(m))[j].0 != key@)
            ==> question_entries(*final(m)) == question_entries(*old(m)).push((key@, value)),
        forall|j: int| 0 <= j < question_entries(*old(m)).len() && #[trigger] question_entries(*old(m))[j].0 == key@
            ==> question_entries(*final(m)) == question_entries(*old(m)).update(j, (key@, value)),
{
    m.insert(key, value);
}

/// `IndexMap::new` for the options of a choice: a map with no entry.
#[verifier::external_body]
pub(crate) fn criteria_map_new() -> (r: IndexMap<String, Option<String>>)
    ensures
        criteria_entries(r).len() == 0,
{
    IndexMap::new()
}

/// `IndexMap::insert` on the options of a choice: a new label goes last; a
/// label that is there keeps its place and takes the new description.
#[verifier::external_body]
pub(crate) fn criteria_insert(m: &mut IndexMap<String, Option<String>>, key: String, value: Option<String>)
    ensures
        (forall|j: int| 0 <= j < criteria_entries(*old(m)).len() ==> #[trigger] criteria_entries(*old(m))[j].0 != key@)
            ==> criteria_entries(*final(m)) == criteria_entries(*old(m)).push((key@, text_of(value))),
        forall|j: int| 0 <= j < criteria_entries(*old(m)).len() && #[trigger] criteria_entries(*old(m))[j].0 == key@
            ==> criteria_entries(*final(m)) == criteria_entries(*old(m)).update(j, (key@, text_of(value))),
{
    m.insert(key, value);
}

/// `IndexMap::get_index_of` on the questions: the place of the entry with
/// id `key`, the only one with that id; `None` when no entry has it.
#[verifier::external_body]
pub(crate) fn question_index(m: &IndexMap<String, Question>, key: &str) -> (r: Option<usize>)
    ensures
        match r {
            Some(i) => {
                &&& i < question_entries(*m).len()
                &&& question_entries(*m)[i as int].0 == key@
                &&& forall|j: int| 0 <= j < question_entries(*m).len() && j != i
                    ==> #[trigger] question_entries(*m)[j].0 != key@
            },
            None => forall|j: int| 0 <= j < question_entries(*m).len()
                ==> #[trigger] question_entries(*m)[j].0 != key@,
        },
{
    m.get_index_of(key)
}

/// `IndexMap::shift_remove` on the questions: the entry with id `key`
/// leaves, and the others keep their order.
#[verifier::external_body]
pub(crate) fn question_remove(m: &mut IndexMap<String, Question>, key: &str)
    ensures
        question_entries(*final(m)) == question_entries(*old(m)).filter(|e: (Seq<char>, Question)| e.0 != key@),
{
    m.shift_remove(key);
}

/// `IndexMap::get_index_mut` on the questions: the question at `i`, to be
/// changed in place; the entry keeps its id and its place.
#[verifier::external_body]
pub(crate) fn question_slot(m: &mut IndexMap<String, Question>, i: usize) -> (r: &mut Question)
    requires
        i < question_entries(*old(m)).len(),
    ensures
        *r == question_entries(*old(m))[i as int].1,
        question_entries(*final(m)) == question_entries(*old(m)).update(
            i as int,
            (question_entries(*old(m))[i as int].0, *final(r)),
        ),
{
    m.get_index_mut(i).unwrap().1
}

/// `IndexMap::get_index_of` on the options of a choice: the place of the
/// option labelled `key`, the only one with that label; `None` when no
/// option has it.
#[verifier::external_body]
pub(crate) fn criteria_index(m: &IndexMap<String, Option<String>>, key: &str) -> (r: Option<usize>)
    ensures
        match r {
            Some(i) => {
                &&& i < criteria_entries(*m).len()
                &&& criteria_entries(*m)[i as int].0 == key@
                &&& forall|j: int| 0 <= j < criteria_entries(*m).len() && j != i
                    ==> #[trigger] criteria_entries(*m)[j].0 != key@
            },
            None => forall|j: int| 0 <= j < criteria_entries(*m).len()
                ==> #[trigger] criteria_entries(*m)[j].0 != key@,
        },
{
    m.get_index_of(key)
}

/// `IndexMap::get_index_mut` on the options of a choice: the description
/// at `i`, to be changed in place; the option keeps its label and place.
#[verifier::external_body]
pub(crate) fn criteria_slot(m: &mut IndexMap<String, Option<String>>, i: usize) -> (r: &mut Option<String>)
    requires
        i < criteria_entries(*old(m)).len(),
    ensures
        text_of(*r) == criteria_entries(*old(m))[i as int].1,
        criteria_entries(*final(m)) == criteria_entries(*old(m)).update(
            i as int,
            (criteria_entries(*old(m))[i as int].0, text_of(*final(r))),
        ),
{
    m.get_index_mut(i).unwrap().1
}

/// Why a request is refused.
#[derive(Debug, Clone, PartialEq, Eq)]
pub enum ProtocolError {
    MissingModel,
    EmptyQuestions,
    InvalidChoiceCardinality(String),
    InvalidScoreCardinality(String),
}

/// The body of an error reply.
#[derive(Debug, Clone, PartialEq, Eq)]
pub struct ErrorBody {
    pub message: String,
    pub code: String,
}

/// An error reply.
#[derive(Debug, Clone, PartialEq, Eq)]
pub struct ApiError {
    pub error: ErrorBody,
}

/// Token counts of a reply.
#[derive(Debug, Clone, Copy, PartialEq, Eq)]
pub struct Usage {
    pub input_tokens: u64,
    pub output_tokens: u64,
}

/// One model of the catalog.
#[derive(Debug, Clone, PartialEq, Eq)]
pub struct ModelInfo {
    pub id: String,
    pub object: String,
    pub owned_by: String,
    pub created: u64,
}

/// The catalog of models.
#[derive(Debug, Clone, PartialEq, Eq)]
pub struct ModelsResponse {
    pub object: String,
    pub data: Vec<ModelInfo>,
}

/// The machine-readable code of an error.
pub open spec fn error_code(e: ProtocolError) -> Seq<char> {
    match e {
        ProtocolError::MissingModel | ProtocolError::EmptyQuestions => "invalid_request"@,
        _ => "invalid_cardinality"@,
    }
}

/// The message of an error.
pub open spec fn error_message(e: ProtocolError) -> Seq<char> {
    match e {
        ProtocolError::MissingModel => "model must not be empty"@,
        ProtocolError::EmptyQuestions => "questions must not be empty"@,
        ProtocolError::InvalidChoiceCardinality(id) => "choice '"@ + id@ + "' must have between 1 and 255 options"@,
        ProtocolError::InvalidScoreCardinality(id) => "score '"@ + id@ + "' must have between 2 and 10 levels"@,
    }
}

impl ProtocolError {
    pub fn code(&self) -> (r: &'static str)
        ensures
            r@ == error_code(*self),
    {
        match self {
            ProtocolError::MissingModel | ProtocolError::EmptyQuestions => "invalid_request",
            _ => "invalid_cardinality",
        }
    }

    /// The message that names what is wrong.
    pub fn message(&self) -> (r: String)
        ensures
            r@ == error_message(*self),
    {
        match self {
            ProtocolError::MissingModel => owned("model must not be empty"),
            ProtocolError::EmptyQuestions => owned("questions must not be empty"),
            ProtocolError::InvalidChoiceCardinality(id) => join3("choice '", id.as_str(), "' must have between 1 and 255 options"),
            ProtocolError::InvalidScoreCardinality(id) => join3("score '", id.as_str(), "' must have between 2 and 10 levels"),
        }
    }

    /// The error reply for this error.
    pub fn into_api_error(self) -> (r: ApiError)
        ensures
            r.error.message@ == error_message(self),
            r.error.code@ == error_code(self),
    {
        let message = self.message();
        let code = owned(self.code());
        ApiError { error: ErrorBody { message, code } }
    }
}

/// The name of a question's kind.
pub open spec fn kind_name(q: Question) -> Seq<char> {
    match q {
        Question::Noul { .. } => "noul"@,
        Question::Choice { .. } => "choice"@,
        Question::Score { .. } => "score"@,
    }
}

impl Question {
    pub fn kind(&self) -> (r: &'static str)
        ensures
            r@ == kind_name(*self),
    {
        match self {
            Question::Noul { .. } => "noul",
            Question::Choice { .. } => "choice",
            Question::Score { .. } => "score",
        }
    }
}

/// A question whose number of options is in range: a choice has 1 to 255
/// options, a score 2 to 10 levels.
pub open spec fn well_sized(q: Question) -> bool {
    match q {
        Question::Noul { .. } => true,
        Question::Choice { criteria, .. } => 1 <= criteria_entries(criteria).len() <= MAX_CHOICE_OPTIONS,
        Question::Score { criteria, .. } => MIN_SCORE_LEVELS <= criteria@.len() <= MAX_SCORE_LEVELS,
    }
}

/// `e` is the refusal of the question `id`, which is not well sized.
pub open spec fn refusal_of(id: Seq<char>, q: Question, e: ProtocolError) -> bool {
    match (q, e) {
        (Question::Choice { .. }, ProtocolError::InvalidChoiceCardinality(x)) => x@ == id,
        (Question::Score { .. }, ProtocolError::InvalidScoreCardinality(x)) => x@ == id,
        _ => false,
    }
}

impl SystemOneRequest {
    /// Check the request: a model that is not blank, at least one question,
    /// and every choice and score with an option count in range.
    pub fn validate(&self) -> (r: Result<(), ProtocolError>)
        ensures
            trim(self.model@).len() == 0 ==> r == Err::<(), ProtocolError>(ProtocolError::MissingModel),
            trim(self.model@).len() != 0 && question_entries(self.questions).len() == 0
                ==> r == Err::<(), ProtocolError>(ProtocolError::EmptyQuestions),
            trim(self.model@).len() != 0 && question_entries(self.questions).len() != 0 ==> match r {
                Ok(()) => forall|k: int| 0 <= k < question_entries(self.questions).len()
                    ==> #[trigger] well_sized(question_entries(self.questions)[k].1),
                Err(e) => exists|k: int| {
                    &&& 0 <= k < question_entries(self.questions).len()
                    &&& forall|j: int| 0 <= j < k ==> #[trigger] well_sized(question_entries(self.questions)[j].1)
                    &&& !well_sized(#[trigger] question_entries(self.questions)[k].1)
                    &&& refusal_of(question_entries(self.questions)[k].0, question_entries(self.questions)[k].1, e)
                },
            },
    {
        if trim_text(self.model.as_str()).unicode_len() == 0 {
            return Err(ProtocolError::MissingModel);
        }
        let n = question_count(&self.questions);
        if n == 0 {
            return Err(ProtocolError::EmptyQuestions);
        }
        let ghost qs = question_entries(self.questions);
        let mut i: usize = 0;
        while i < n
            invariant
                n == qs.len(),
                n > 0,
                trim(self.model@).len() != 0,
                qs == question_entries(self.questions),
                i <= n,
                forall|j: int| 0 <= j < i ==> #[trigger] well_sized(qs[j].1),
            decreases n - i,
        {
            let (id, question) = question_at(&self.questions, i);
            match question {
                Question::Choice { criteria, .. } => {
                    let c = criteria_count(criteria);
                    if c == 0 || c > MAX_CHOICE_OPTIONS {
                        proof {
                            assert(!well_sized(qs[i as int].1));
                        }
                        return Err(ProtocolError::InvalidChoiceCardinality(id.clone()));
                    }
                },
                Question::Score { criteria, .. } => {
                    if criteria.len() < MIN_SCORE_LEVELS || criteria.len() > MAX_SCORE_LEVELS {
                        proof {
                            assert(!well_sized(qs[i as int].1));
                        }
                        return Err(ProtocolError::InvalidScoreCardinality(id.clone()));
                    }
                },
                Question::Noul { .. } => {},
            }
            proof {
                assert(well_sized(qs[i as int].1));
            }
            i = i + 1;
        }
        Ok(())
    }
}

/// The catalog that lists the one local model.
pub fn models_catalog(model_id: &str) -> (r: ModelsResponse)
    ensures
        r.object@ == "list"@,
        r.data@.len() == 1,
        r.data@[0].id@ == model_id@,
        r.data@[0].object@ == "model"@,
        r.data@[0].owned_by@ == "jev-quantum"@,
        r.data@[0].created == 0,
{
    let mut data: Vec<ModelInfo> = Vec::new();
    data.push(ModelInfo { id: owned(model_id), object: owned("model"), owned_by: owned("jev-quantum"), created: 0 });
    ModelsResponse { object: owned("list"), data }
}

} // verus!
