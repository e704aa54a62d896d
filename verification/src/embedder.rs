//! Which embedder is used, and what it is asked.
use crate::config::{
    copy_fastembed, copy_ollama, copy_openai, result_view, EmbedderConfig, EmbedderView,
    FastembedConfig, FastembedView, OllamaConfig, OllamaView, OpenAiConfig, OpenAiView,
};
use crate::sorting::{in_order, ranking, sort_items, views, Ranked};
use crate::text::{
    blank, clone_texts, concat, is_blank, same_text, texts, trim_trailing, without_trailing,
};
use vstd::prelude::*;

verus! {

// ---------------------------------------------------------------------------
// Models
// ---------------------------------------------------------------------------

/// The models that the local embedder offers.
#[derive(Clone, Copy, Debug, PartialEq, Eq, Structural)]
pub enum EmbeddingModel {
    BgeSmallEnV15,
    BgeBaseEnV15,
    BgeLargeEnV15,
    MultilingualE5Small,
    MultilingualE5Base,
    MultilingualE5Large,
}

/// The model with a name. The small one is used where none is named.
pub open spec fn model_of(name: Option<Seq<char>>) -> Result<EmbeddingModel, Seq<char>> {
    match name {
        None => Ok(EmbeddingModel::BgeSmallEnV15),
        Some(name) => if name == "bge-small-en-v1.5"@ {
            Ok(EmbeddingModel::BgeSmallEnV15)
        } else if name == "bge-base-en-v1.5"@ {
            Ok(EmbeddingModel::BgeBaseEnV15)
        } else if name == "bge-large-en-v1.5"@ {
            Ok(EmbeddingModel::BgeLargeEnV15)
        } else if name == "e5-small-v2"@ {
            Ok(EmbeddingModel::MultilingualE5Small)
        } else if name == "e5-base-v2"@ {
            Ok(EmbeddingModel::MultilingualE5Base)
        } else if name == "e5-large-v2"@ {
            Ok(EmbeddingModel::MultilingualE5Large)
        } else {
            Err("unsupported fastembed model: "@ + name)
        },
    }
}

/// The model that is asked for.
pub fn resolve_model(config: &FastembedConfig) -> (model: Result<EmbeddingModel, String>)
    ensures
        match model {
            Ok(model) => model_of(config@.model) == Ok::<EmbeddingModel, Seq<char>>(model),
            Err(message) => model_of(config@.model) == Err::<EmbeddingModel, Seq<char>>(message@),
        },
{
    match &config.model {
        None => Ok(EmbeddingModel::BgeSmallEnV15),
        Some(name) => if same_text(name.as_str(), "bge-small-en-v1.5") {
            Ok(EmbeddingModel::BgeSmallEnV15)
        } else if same_text(name.as_str(), "bge-base-en-v1.5") {
            Ok(EmbeddingModel::BgeBaseEnV15)
        } else if same_text(name.as_str(), "bge-large-en-v1.5") {
            Ok(EmbeddingModel::BgeLargeEnV15)
        } else if same_text(name.as_str(), "e5-small-v2") {
            Ok(EmbeddingModel::MultilingualE5Small)
        } else if same_text(name.as_str(), "e5-base-v2") {
            Ok(EmbeddingModel::MultilingualE5Base)
        } else if same_text(name.as_str(), "e5-large-v2") {
            Ok(EmbeddingModel::MultilingualE5Large)
        } else {
            Err(concat("unsupported fastembed model: ", name.as_str()))
        },
    }
}

// ---------------------------------------------------------------------------
// Embedders
// ---------------------------------------------------------------------------

/// A local embedder: its model, and where its files are kept.
#[derive(Clone, Debug)]
pub struct BgeEmbedder {
    pub model: EmbeddingModel,
    pub cache_dir: String,
    pub concurrency: usize,
}

/// An embedder that asks an Ollama server.
#[derive(Clone, Debug)]
pub struct OllamaEmbedder {
    pub config: OllamaConfig,
    pub concurrency: usize,
}

/// An embedder that asks the service of OpenAI.
#[derive(Clone, Debug)]
pub struct OpenAiEmbedder {
    pub config: OpenAiConfig,
    pub concurrency: usize,
}

/// What an embedder is, as a mathematical value.
#[verifier::ext_equal]
pub enum ChoiceView {
    Bge(EmbeddingModel, Seq<char>, int),
    Ollama(OllamaView, int),
    OpenAi(OpenAiView, int),
}

impl View for BgeEmbedder {
    type V = ChoiceView;

    open spec fn view(&self) -> ChoiceView {
        ChoiceView::Bge(self.model, self.cache_dir@, self.concurrency as int)
    }
}

impl View for OllamaEmbedder {
    type V = ChoiceView;

    open spec fn view(&self) -> ChoiceView {
        ChoiceView::Ollama(self.config@, self.concurrency as int)
    }
}

impl View for OpenAiEmbedder {
    type V = ChoiceView;

    open spec fn view(&self) -> ChoiceView {
        ChoiceView::OpenAi(self.config@, self.concurrency as int)
    }
}

/// A local embedder. It needs a place for its files and a model that is offered.
pub open spec fn local_embedder(config: FastembedView, concurrency: int) -> Result<
    ChoiceView,
    Seq<char>,
> {
    if blank(config.model_path) {
        Err("embedder.fastembed.model_path is required"@)
    } else {
        match model_of(config.model) {
            Err(message) => Err(message),
            Ok(model) => Ok(ChoiceView::Bge(model, config.model_path, concurrency)),
        }
    }
}

/// An embedder that asks an Ollama server. It needs an address and a model.
pub open spec fn ollama_embedder(config: OllamaView, concurrency: int) -> Result<
    ChoiceView,
    Seq<char>,
> {
    if blank(config.base_url) || blank(config.model) {
        Err("embedder.ollama.base_url and embedder.ollama.model are required"@)
    } else {
        Ok(ChoiceView::Ollama(config, concurrency))
    }
}

/// An embedder that asks the service of OpenAI. It needs the name of the
/// variable that holds the key, and a model.
pub open spec fn openai_embedder(config: OpenAiView, concurrency: int) -> Result<
    ChoiceView,
    Seq<char>,
> {
    if blank(config.api_key_env) || blank(config.model) {
        Err("embedder.openai.api_key_env and embedder.openai.model are required"@)
    } else {
        Ok(ChoiceView::OpenAi(config, concurrency))
    }
}

impl BgeEmbedder {
    /// A local embedder.
    pub fn new(config: FastembedConfig, concurrency: usize) -> (out: Result<Self, String>)
        ensures
            result_view(out) == local_embedder(config@, concurrency as int),
    {
        if is_blank(config.model_path.as_str()) {
            return Err("embedder.fastembed.model_path is required".to_owned());
        }
        match resolve_model(&config) {
            Err(message) => Err(message),
            Ok(model) => Ok(BgeEmbedder { model, cache_dir: config.model_path, concurrency }),
        }
    }
}

impl OllamaEmbedder {
    /// An embedder that asks an Ollama server.
    pub fn new(config: OllamaConfig, concurrency: usize) -> (out: Result<Self, String>)
        ensures
            result_view(out) == ollama_embedder(config@, concurrency as int),
    {
        if is_blank(config.base_url.as_str()) || is_blank(config.model.as_str()) {
            return Err(
                "embedder.ollama.base_url and embedder.ollama.model are required".to_owned(),
            );
        }
        Ok(OllamaEmbedder { config, concurrency })
    }
}

impl OpenAiEmbedder {
    /// An embedder that asks the service of OpenAI.
    pub fn new(config: OpenAiConfig, concurrency: usize) -> (out: Result<Self, String>)
        ensures
            result_view(out) == openai_embedder(config@, concurrency as int),
    {
        if is_blank(config.api_key_env.as_str()) || is_blank(config.model.as_str()) {
            return Err(
                "embedder.openai.api_key_env and embedder.openai.model are required".to_owned(),
            );
        }
        Ok(OpenAiEmbedder { config, concurrency })
    }
}

/// The embedder that is used.
#[derive(Clone, Debug)]
pub enum EmbedderChoice {
    Bge(BgeEmbedder),
    Ollama(OllamaEmbedder),
    OpenAi(OpenAiEmbedder),
}

impl View for EmbedderChoice {
    type V = ChoiceView;

    open spec fn view(&self) -> ChoiceView {
        match *self {
            EmbedderChoice::Bge(own) => own@,
            EmbedderChoice::Ollama(own) => own@,
            EmbedderChoice::OpenAi(own) => own@,
        }
    }
}

/// The embedder of a configuration.
pub open spec fn chosen_embedder(config: EmbedderView) -> Result<ChoiceView, Seq<char>> {
    if config.provider == "fastembed"@ {
        match config.fastembed {
            None => Err("embedder.fastembed is required"@),
            Some(own) => local_embedder(own, config.concurrency),
        }
    } else if config.provider == "ollama"@ {
        match config.ollama {
            None => Err("embedder.ollama is required"@),
            Some(own) => ollama_embedder(own, config.concurrency),
        }
    } else if config.provider == "openai"@ {
        match config.openai {
            None => Err("embedder.openai is required"@),
            Some(own) => openai_embedder(own, config.concurrency),
        }
    } else {
        Err("unknown embedder provider: "@ + config.provider)
    }
}

/// Chooses the embedder of a configuration.
pub fn build_embedder(config: &EmbedderConfig) -> (out: Result<EmbedderChoice, String>)
    ensures
        result_view(out) == chosen_embedder(config@),
{
    if same_text(config.provider.as_str(), "fastembed") {
        match &config.fastembed {
            None => Err("embedder.fastembed is required".to_owned()),
            Some(own) => match BgeEmbedder::new(copy_fastembed(own), config.concurrency) {
                Ok(embedder) => Ok(EmbedderChoice::Bge(embedder)),
                Err(message) => Err(message),
            },
        }
    } else if same_text(config.provider.as_str(), "ollama") {
        match &config.ollama {
            None => Err("embedder.ollama is required".to_owned()),
            Some(own) => match OllamaEmbedder::new(copy_ollama(own), config.concurrency) {
                Ok(embedder) => Ok(EmbedderChoice::Ollama(embedder)),
                Err(message) => Err(message),
            },
        }
    } else if same_text(config.provider.as_str(), "openai") {
        match &config.openai {
            None => Err("embedder.openai is required".to_owned()),
            Some(own) => match OpenAiEmbedder::new(copy_openai(own), config.concurrency) {
                Ok(embedder) => Ok(EmbedderChoice::OpenAi(embedder)),
                Err(message) => Err(message),
            },
        }
    } else {
        Err(concat("unknown embedder provider: ", config.provider.as_str()))
    }
}

// ---------------------------------------------------------------------------
// Requests
// ---------------------------------------------------------------------------

/// What an Ollama server is asked: texts in one request, or one text.
#[derive(Clone, Debug)]
pub struct OllamaRequest {
    pub url: String,
    pub model: String,
    pub batch: bool,
    pub texts: Vec<String>,
}

/// What an Ollama server is asked, as a mathematical value.
#[verifier::ext_equal]
pub struct OllamaRequestView {
    pub url: Seq<char>,
    pub model: Seq<char>,
    pub batch: bool,
    pub texts: Seq<Seq<char>>,
}

impl View for OllamaRequest {
    type V = OllamaRequestView;

    open spec fn view(&self) -> OllamaRequestView {
        OllamaRequestView {
            url: self.url@,
            model: self.model@,
            batch: self.batch,
            texts: texts(self.texts@),
        }
    }
}

/// The address of an Ollama server without slashes at its end, and a path.
pub open spec fn ollama_address(base: Seq<char>, path: Seq<char>) -> Seq<char> {
    without_trailing(base, '/') + path
}

/// The requests for the embeddings of some texts: one for all of them where the
/// server takes that, else one for each.
pub open spec fn ollama_requests(config: OllamaView, list: Seq<Seq<char>>) -> Seq<
    OllamaRequestView,
> {
    if config.batch {
        Seq::empty().push(
            OllamaRequestView {
                url: ollama_address(config.base_url, "/api/embed"@),
                model: config.model,
                batch: true,
                texts: list,
            },
        )
    } else {
        Seq::new(
            list.len(),
            |i: int|
                (OllamaRequestView {
                    url: ollama_address(config.base_url, "/api/embeddings"@),
                    model: config.model,
                    batch: false,
                    texts: Seq::empty().push(list[i]),
                }),
        )
    }
}

/// The requests for the embeddings of some texts.
pub fn plan_ollama(config: &OllamaConfig, list: &Vec<String>) -> (requests: Vec<OllamaRequest>)
    ensures
        views(requests@) == ollama_requests(config@, texts(list@)),
{
    let base = trim_trailing(config.base_url.as_str(), '/');
    let ghost all = ollama_requests(config@, texts(list@));
    let mut requests: Vec<OllamaRequest> = Vec::new();
    if config.batch {
        let request = OllamaRequest {
            url: concat(base.as_str(), "/api/embed"),
            model: config.model.clone(),
            batch: true,
            texts: clone_texts(list),
        };
        requests.push(request);
        assert(views(requests@) =~= all);
        return requests;
    }
    let mut i: usize = 0;
    assert(views(requests@) =~= all.take(0));
    while i < list.len()
        invariant
            i <= list@.len(),
            !config.batch,
            base@ == without_trailing(config.base_url@, '/'),
            all == ollama_requests(config@, texts(list@)),
            views(requests@) == all.take(i as int),
        decreases list@.len() - i,
    {
        let mut one: Vec<String> = Vec::new();
        one.push(list[i].clone());
        let request = OllamaRequest {
            url: concat(base.as_str(), "/api/embeddings"),
            model: config.model.clone(),
            batch: false,
            texts: one,
        };
        proof {
            assert(texts(one@) =~= Seq::empty().push(texts(list@)[i as int]));
            assert(request@ =~= all[i as int]);
            assert(views(requests@.push(request)) =~= views(requests@).push(request@));
            assert(all.take(i + 1) =~= all.take(i as int).push(all[i as int]));
        }
        requests.push(request);
        i = i + 1;
    }
    assert(all.take(i as int) =~= all);
    requests
}

/// Where the service of OpenAI gives embeddings.
pub fn openai_url() -> (url: String)
    ensures
        url@ == "https://api.openai.com/v1/embeddings"@,
{
    "https://api.openai.com/v1/embeddings".to_owned()
}

/// What is told where the variable that should hold the key is not set.
pub fn missing_key(config: &OpenAiConfig) -> (message: String)
    ensures
        message@ == "missing OPENAI api key env: "@ + config@.api_key_env,
{
    concat("missing OPENAI api key env: ", config.api_key_env.as_str())
}

/// An embedding with the position of its text in the request.
#[derive(Clone, Debug)]
pub struct IndexedVector<E> {
    pub index: usize,
    pub embedding: Vec<E>,
}

impl<E> View for IndexedVector<E> {
    type V = (int, Seq<E>);

    open spec fn view(&self) -> (int, Seq<E>) {
        (self.index as int, self.embedding@)
    }
}

impl<E> Ranked for IndexedVector<E> {
    /// Embeddings are ordered by their positions.
    open spec fn rank(item: (int, Seq<E>), second: bool) -> (int, int) {
        (item.0, 0)
    }

    fn rank_of(&self, second: bool) -> (rank: (usize, usize)) {
        (self.index, 0)
    }
}

/// Embeddings in the order of their positions.
pub open spec fn ordered<E>(data: Seq<(int, Seq<E>)>) -> Seq<Seq<E>> {
    let sorted = in_order(data, ranking::<IndexedVector<E>>(false));
    Seq::new(sorted.len(), |i: int| sorted[i].1)
}

/// Puts embeddings into the order of their positions.
pub fn order_embeddings<E>(data: Vec<IndexedVector<E>>) -> (out: Vec<Vec<E>>)
    ensures
        crate::jobs::vectors_view(out@) == ordered(views(data@)),
{
    let sorted = sort_items(data, false);
    let ghost all = views(sorted@);
    let mut left = sorted;
    let mut reversed: Vec<Vec<E>> = Vec::new();
    while left.len() > 0
        invariant
            all.len() == left@.len() + reversed@.len(),
            forall|k: int| 0 <= k < left@.len() ==> all[k] == (#[trigger] left@[k])@,
            forall|k: int|
                0 <= k < reversed@.len() ==> all[all.len() - 1 - k].1 == (#[trigger] reversed@[k])@,
        decreases left@.len(),
    {
        match left.pop() {
            Some(item) => {
                reversed.push(item.embedding);
            },
            None => {},
        }
    }
    let mut out: Vec<Vec<E>> = Vec::new();
    while reversed.len() > 0
        invariant
            all.len() == out@.len() + reversed@.len(),
            forall|k: int|
                0 <= k < reversed@.len() ==> all[all.len() - 1 - k].1 == (#[trigger] reversed@[k])@,
            forall|k: int| 0 <= k < out@.len() ==> all[k].1 == (#[trigger] out@[k])@,
        decreases reversed@.len(),
    {
        match reversed.pop() {
            Some(embedding) => {
                out.push(embedding);
            },
            None => {},
        }
    }
    assert(crate::jobs::vectors_view(out@) =~= ordered(views(data@)));
    out
}

} // verus!
