//! The speech models that were loaded.

use vstd::prelude::*;

use crate::models_dir::ModelsDir;
use crate::text;

verus! {

struct Loaded<C> {
    name: String,
    context: C,
}

/// The models that were loaded, by name. Loading takes seconds, so each is loaded once.
pub struct ModelCache<C> {
    models: Vec<Loaded<C>>,
}

spec fn loaded_names<C>(models: Seq<Loaded<C>>) -> Seq<Seq<char>> {
    models.map_values(|m: Loaded<C>| m.name@)
}

spec fn loaded_index<C>(models: Seq<Loaded<C>>, name: Seq<char>) -> int {
    choose|i: int| 0 <= i < models.len() && (#[trigger] models[i]).name@ == name
}

spec fn loaded_map<C>(models: Seq<Loaded<C>>) -> Map<Seq<char>, C> {
    Map::new(
        |name: Seq<char>| loaded_names(models).contains(name),
        |name: Seq<char>| models[loaded_index(models, name)].context,
    )
}

/// What has to be done for a model.
#[derive(Debug)]
pub enum Lookup {
    /// It was loaded before.
    Cached,
    /// It is to be loaded from this file.
    Load(String),
}

/// The file of a model.
pub open spec fn model_file(name: Seq<char>) -> Seq<char> {
    "ggml-"@ + name + ".bin"@
}

/// The error for a model whose file is missing.
pub open spec fn missing_model(path: Seq<char>, name: Seq<char>) -> Seq<char> {
    "Model file not found: "@ + path + "  —  download ggml-"@ + name
        + ".bin from https://huggingface.co/ggerganov/whisper.cpp"@
}

impl<C> View for ModelCache<C> {
    type V = Map<Seq<char>, C>;

    closed spec fn view(&self) -> Map<Seq<char>, C> {
        loaded_map(self.models@)
    }
}

impl<C> ModelCache<C> {
    /// No model was loaded twice.
    pub closed spec fn wf(&self) -> bool {
        loaded_names(self.models@).no_duplicates()
    }

    /// No model was loaded.
    pub fn new() -> (cache: ModelCache<C>)
        ensures
            cache.wf(),
            cache@ == Map::<Seq<char>, C>::empty(),
    {
        let cache = ModelCache { models: Vec::new() };
        assert(cache@ =~= Map::<Seq<char>, C>::empty());
        cache
    }

    fn find(&self, name: &str) -> (at: Option<usize>)
        requires
            self.wf(),
        ensures
            match at {
                Some(i) => i < self.models@.len() && self.models@[i as int].name@ == name@
                    && self@.dom().contains(name@) && self@[name@] == self.models@[i as int].context,
                None => !self@.dom().contains(name@),
            },
    {
        let ghost names = loaded_names(self.models@);
        let mut i: usize = 0;
        while i < self.models.len()
            invariant
                i <= self.models.len(),
                self.wf(),
                names == loaded_names(self.models@),
                forall|j: int| 0 <= j < i ==> names[j] != name@,
            decreases self.models.len() - i,
        {
            if text::same_text(self.models[i].name.as_str(), name) {
                proof {
                    assert(names[i as int] == name@);
                    let k = loaded_index(self.models@, name@);
                    assert(self.models@[i as int].name@ == name@);
                    assert(names[k] == name@);
                }
                return Some(i);
            }
            assert(names[i as int] == self.models@[i as int].name@);
            i += 1;
        }
        None
    }

    /// The model with the given name, if it was loaded.
    pub fn get(&self, name: &str) -> (context: Option<&C>)
        requires
            self.wf(),
        ensures
            match context {
                Some(c) => self@.dom().contains(name@) && *c == self@[name@],
                None => !self@.dom().contains(name@),
            },
    {
        match self.find(name) {
            Some(i) => Some(&self.models[i].context),
            None => None,
        }
    }

    /// What has to be done for a model: nothing if it was loaded, else it is loaded from
    /// its file, which has to be there.
    pub fn get_or_load(&self, model_name: &str, models_dir: &ModelsDir) -> (out: Result<Lookup, String>)
        requires
            self.wf(),
        ensures
            ({
                let file = model_file(model_name@);
                let path = models_dir.path_of(file);
                if self@.dom().contains(model_name@) {
                    out matches Ok(Lookup::Cached)
                } else if models_dir.holds(file) {
                    out matches Ok(Lookup::Load(p)) && p@ == path
                } else {
                    out matches Err(message) && message@ == missing_model(path, model_name@)
                }
            }),
    {
        match self.find(model_name) {
            Some(_) => Ok(Lookup::Cached),
            None => {
                let mut file = "ggml-".to_owned();
                file.append(model_name);
                file.append(".bin");
                let path = models_dir.join(file.as_str());
                if models_dir.has(file.as_str()) {
                    Ok(Lookup::Load(path))
                } else {
                    let mut message = "Model file not found: ".to_owned();
                    message.append(path.as_str());
                    message.append("  —  download ggml-");
                    message.append(model_name);
                    message.append(".bin from https://huggingface.co/ggerganov/whisper.cpp");
                    Err(message)
                }
            },
        }
    }

    /// Keeps a model that was loaded. One that is kept already stays.
    pub fn insert(&mut self, name: String, context: C)
        requires
            old(self).wf(),
        ensures
            final(self).wf(),
            final(self)@ == if old(self)@.dom().contains(name@) {
                old(self)@
            } else {
                old(self)@.insert(name@, context)
            },
    {
        if self.find(name.as_str()).is_some() {
            return;
        }
        let ghost before = self.models@;
        let ghost b = loaded_names(before);
        self.models.push(Loaded { name, context });
        let ghost after = self.models@;
        let ghost a = loaded_names(after);
        proof {
            assert(a =~= b.push(name@));
            assert(!b.contains(name@));
            assert forall|i: int, j: int| 0 <= i < a.len() && 0 <= j < a.len() && i != j implies a[i]
                != a[j] by {
                if i == b.len() {
                    assert(b.contains(a[j]));
                } else if j == b.len() {
                    assert(b.contains(a[i]));
                }
            }
            assert forall|n: Seq<char>| a.contains(n) == (b.contains(n) || n == name@) by {
                if b.contains(n) {
                    let k = choose|k: int| 0 <= k < b.len() && b[k] == n;
                    assert(a[k] == n);
                }
                if n == name@ {
                    assert(a[b.len() as int] == n);
                }
            }
            assert forall|n: Seq<char>| a.contains(n) implies loaded_map(after)[n] == loaded_map(
                before,
            ).insert(name@, context)[n] by {
                let k = choose|k: int| 0 <= k < a.len() && a[k] == n;
                assert(after[k].name@ == n);
                let i = loaded_index(after, n);
                assert(a[i] == n);
                if k < before.len() {
                    assert(before[k].name@ == n);
                    let h = loaded_index(before, n);
                    assert(b[h] == n && b[k] == n);
                }
            }
            assert(loaded_map(after) =~= loaded_map(before).insert(name@, context));
        }
    }
}

/// The error for a model that could not be loaded.
pub fn load_error(name: &str, cause: &str) -> (message: String)
    ensures
        message@ == "failed to load model '"@ + name@ + "': "@ + cause@,
{
    let mut message = "failed to load model '".to_owned();
    message.append(name);
    message.append("': ");
    message.append(cause);
    message
}

/// A model that is listed is loaded from the file that it is listed for.
pub proof fn listed_models_can_be_loaded(name: Seq<char>)
    requires
        !text::occurs_at(name, "ggml-"@, 0),
        !crate::routes::config::ends_in(name, ".bin"@),
    ensures
        crate::routes::config::is_model_file(model_file(name)),
        crate::routes::config::model_in(model_file(name)) == name,
{
    crate::routes::config::model_files_name_their_model(name);
}

} // verus!
