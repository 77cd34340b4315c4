//! The server's configuration, read from environment variables.

use crate::models::{EmbeddingIdentity, IdentityView};
use crate::numbers::{
    lemma_decimal_reads_back, lemma_signs_read_back, number_value, parse_i64, parse_unsigned,
    signed_value, unsigned_value,
};
use crate::text::{
    chars_of, decimal, decimal_of, is_space, lemma_trimmed, same_text, signed_decimal,
    signed_decimal_of, string_of, trim, trimmed,
};
use vstd::prelude::*;

verus! {

pub const DATA_DIR_ENV: &'static str = "ASK_SERVER_DATA_DIR";

pub const DATA_DISPLAY_DIR_ENV: &'static str = "ASK_SERVER_DATA_DISPLAY_DIR";

pub const RESOURCE_DIR_ENV: &'static str = "ASK_SERVER_RESOURCE_DIR";

pub const RESOURCE_DISPLAY_DIR_ENV: &'static str = "ASK_SERVER_RESOURCE_DISPLAY_DIR";

pub const BIND_HOST_ENV: &'static str = "ASK_SERVER_BIND_HOST";

pub const BIND_PORT_ENV: &'static str = "ASK_SERVER_BIND_PORT";

pub const DATABASE_POOL_SIZE_ENV: &'static str = "ASK_SERVER_DATABASE_POOL_SIZE";

pub const EMBEDDING_MODEL_ENV: &'static str = "ASK_SERVER_EMBEDDING_MODEL";

pub const EMBEDDING_DIMENSIONS_ENV: &'static str = "ASK_SERVER_EMBEDDING_DIMENSIONS";

pub const EMBEDDING_CHUNK_SIZE_ENV: &'static str = "ASK_SERVER_EMBEDDING_CHUNK_SIZE";

pub const EMBEDDING_CHUNK_OVERLAP_ENV: &'static str = "ASK_SERVER_EMBEDDING_CHUNK_OVERLAP";

pub const EMBEDDING_MAX_BATCH_SIZE_ENV: &'static str = "ASK_SERVER_EMBEDDING_MAX_BATCH_SIZE";

pub const EMBEDDING_WORKER_COUNT_ENV: &'static str = "ASK_SERVER_EMBEDDING_WORKER_COUNT";

pub const EMBEDDING_MODE_ENV: &'static str = "ASK_SERVER_EMBEDDING_MODE";

pub const EMBEDDING_BASE_URL_ENV: &'static str = "ASK_SERVER_EMBEDDING_BASE_URL";

pub const EMBEDDING_AUTH_TOKEN_ENV: &'static str = "ASK_SERVER_EMBEDDING_AUTH_TOKEN";

pub const DEFAULT_DATA_DIR: &'static str = ".data";

pub const DEFAULT_RESOURCE_DIR: &'static str = ".";

pub const DEFAULT_BIND_HOST: &'static str = "0.0.0.0";

pub const DEFAULT_BIND_PORT: u16 = 3000;

pub const DEFAULT_DATABASE_POOL_SIZE: usize = 8;

pub const DEFAULT_EMBEDDING_DIMENSIONS: i64 = 768;

pub const DEFAULT_EMBEDDING_CHUNK_SIZE: i64 = 512;

pub const DEFAULT_EMBEDDING_CHUNK_OVERLAP: i64 = 0;

pub const DEFAULT_EMBEDDING_MAX_BATCH_SIZE: usize = 32;

pub const DEFAULT_WORKER_COUNT: usize = 2;

pub const DEFAULT_TEI_BASE_URL: &'static str = "http://localhost:18080";

/// The values of the variables that the configuration is read from; `None` for one that
/// is not set.
#[derive(Clone, Debug, Default)]
pub struct Environment {
    pub data_dir: Option<String>,
    pub data_display_dir: Option<String>,
    pub resource_dir: Option<String>,
    pub resource_display_dir: Option<String>,
    pub bind_host: Option<String>,
    pub bind_port: Option<String>,
    pub database_pool_size: Option<String>,
    pub embedding_model: Option<String>,
    pub embedding_dimensions: Option<String>,
    pub embedding_chunk_size: Option<String>,
    pub embedding_chunk_overlap: Option<String>,
    pub embedding_max_batch_size: Option<String>,
    pub embedding_worker_count: Option<String>,
    pub embedding_mode: Option<String>,
    pub embedding_base_url: Option<String>,
    pub embedding_auth_token: Option<String>,
}

/// The service that makes embeddings.
#[derive(Clone, Debug, PartialEq, Eq)]
pub enum EmbeddingProvider {
    /// The local text-embeddings-inference service.
    Tei { base_url: String },
    /// An external service with the interface of OpenAI, and the token it asks for.
    OpenAi { base_url: String, auth_token: String },
}

/// The view of an [`EmbeddingProvider`].
pub enum ProviderView {
    Tei { base_url: Seq<char> },
    OpenAi { base_url: Seq<char>, auth_token: Seq<char> },
}

impl View for EmbeddingProvider {
    type V = ProviderView;

    open spec fn view(&self) -> ProviderView {
        match self {
            EmbeddingProvider::Tei { base_url } => ProviderView::Tei { base_url: base_url@ },
            EmbeddingProvider::OpenAi { base_url, auth_token } => ProviderView::OpenAi {
                base_url: base_url@,
                auth_token: auth_token@,
            },
        }
    }
}

impl ProviderView {
    pub open spec fn base_url(self) -> Seq<char> {
        match self {
            ProviderView::Tei { base_url } => base_url,
            ProviderView::OpenAi { base_url, .. } => base_url,
        }
    }

    pub open spec fn mode_name(self) -> Seq<char> {
        match self {
            ProviderView::Tei { .. } => "tei"@,
            ProviderView::OpenAi { .. } => "openai"@,
        }
    }
}

impl EmbeddingProvider {
    /// Where the service is.
    pub fn base_url(&self) -> (url: &str)
        ensures
            url@ == self@.base_url(),
    {
        match self {
            EmbeddingProvider::Tei { base_url } => base_url.as_str(),
            EmbeddingProvider::OpenAi { base_url, .. } => base_url.as_str(),
        }
    }

    /// The name of the mode.
    pub fn mode_name(&self) -> (name: &'static str)
        ensures
            name@ == self@.mode_name(),
    {
        match self {
            EmbeddingProvider::Tei { .. } => "tei",
            EmbeddingProvider::OpenAi { .. } => "openai",
        }
    }
}

/// The server's configuration.
#[derive(Clone, Debug, PartialEq, Eq)]
pub struct Config {
    /// The directory with the server's own data.
    pub data_dir: String,
    /// The name under which that directory is shown.
    pub data_display_dir: String,
    /// The directory with the files that may be ingested.
    pub resource_dir: String,
    /// The name under which that directory is shown.
    pub resource_display_dir: String,
    /// The host or interface to listen at.
    pub bind_host: String,
    /// The port to listen at.
    pub bind_port: u16,
    /// The greatest number of connections to the database.
    pub database_pool_size: usize,
    /// The name of the embedding model.
    pub embedding_model: String,
    /// The number of values of its vectors.
    pub embedding_dimensions: i64,
    /// The size that content is split by.
    pub embedding_chunk_size: i64,
    /// How much neighbouring chunks share.
    pub embedding_chunk_overlap: i64,
    /// The greatest number of texts in one request.
    pub embedding_max_batch_size: usize,
    /// The number of workers; none if zero.
    pub embedding_worker_count: usize,
    /// The service that makes embeddings.
    pub embedding_provider: EmbeddingProvider,
}

/// The view of a [`Config`].
pub struct ConfigView {
    pub data_dir: Seq<char>,
    pub data_display_dir: Seq<char>,
    pub resource_dir: Seq<char>,
    pub resource_display_dir: Seq<char>,
    pub bind_host: Seq<char>,
    pub bind_port: int,
    pub database_pool_size: int,
    pub embedding_model: Seq<char>,
    pub embedding_dimensions: int,
    pub embedding_chunk_size: int,
    pub embedding_chunk_overlap: int,
    pub embedding_max_batch_size: int,
    pub embedding_worker_count: int,
    pub embedding_provider: ProviderView,
}

impl View for Config {
    type V = ConfigView;

    open spec fn view(&self) -> ConfigView {
        ConfigView {
            data_dir: self.data_dir@,
            data_display_dir: self.data_display_dir@,
            resource_dir: self.resource_dir@,
            resource_display_dir: self.resource_display_dir@,
            bind_host: self.bind_host@,
            bind_port: self.bind_port as int,
            database_pool_size: self.database_pool_size as int,
            embedding_model: self.embedding_model@,
            embedding_dimensions: self.embedding_dimensions as int,
            embedding_chunk_size: self.embedding_chunk_size as int,
            embedding_chunk_overlap: self.embedding_chunk_overlap as int,
            embedding_max_batch_size: self.embedding_max_batch_size as int,
            embedding_worker_count: self.embedding_worker_count as int,
            embedding_provider: self.embedding_provider@,
        }
    }
}

/// What is wrong with the configuration.
#[derive(Clone, Debug, PartialEq, Eq)]
pub enum ConfigError {
    /// The port is none.
    InvalidPort { raw: String },
    /// A variable that should be a number is none.
    InvalidInteger { name: &'static str, raw: String },
    /// A variable that should be a count is none.
    InvalidCount { name: &'static str, raw: String },
    /// A variable has to be set.
    Missing { name: &'static str },
    /// A variable must not be blank.
    Blank { name: &'static str },
    /// A variable has to be set in the mode `openai`.
    MissingForOpenAi { name: &'static str },
    /// A variable must not be blank in the mode `openai`.
    BlankForOpenAi { name: &'static str },
    /// The mode is unknown.
    UnknownMode { mode: String },
    /// A number has to be positive.
    NotPositive { name: &'static str, value: i64 },
    /// A number must not be negative.
    Negative { name: &'static str, value: i64 },
    /// Chunks would share all of their content.
    OverlapTooLarge { overlap: i64, size: i64 },
    /// A count must not be zero.
    ZeroCount { name: &'static str },
}

/// The view of a [`ConfigError`].
pub enum ConfigErrorView {
    InvalidPort { raw: Seq<char> },
    InvalidInteger { name: Seq<char>, raw: Seq<char> },
    InvalidCount { name: Seq<char>, raw: Seq<char> },
    Missing { name: Seq<char> },
    Blank { name: Seq<char> },
    MissingForOpenAi { name: Seq<char> },
    BlankForOpenAi { name: Seq<char> },
    UnknownMode { mode: Seq<char> },
    NotPositive { name: Seq<char>, value: int },
    Negative { name: Seq<char>, value: int },
    OverlapTooLarge { overlap: int, size: int },
    ZeroCount { name: Seq<char> },
}

impl View for ConfigError {
    type V = ConfigErrorView;

    open spec fn view(&self) -> ConfigErrorView {
        match self {
            ConfigError::InvalidPort { raw } => ConfigErrorView::InvalidPort { raw: raw@ },
            ConfigError::InvalidInteger { name, raw } => ConfigErrorView::InvalidInteger {
                name: name@,
                raw: raw@,
            },
            ConfigError::InvalidCount { name, raw } => ConfigErrorView::InvalidCount {
                name: name@,
                raw: raw@,
            },
            ConfigError::Missing { name } => ConfigErrorView::Missing { name: name@ },
            ConfigError::Blank { name } => ConfigErrorView::Blank { name: name@ },
            ConfigError::MissingForOpenAi { name } => ConfigErrorView::MissingForOpenAi {
                name: name@,
            },
            ConfigError::BlankForOpenAi { name } => ConfigErrorView::BlankForOpenAi {
                name: name@,
            },
            ConfigError::UnknownMode { mode } => ConfigErrorView::UnknownMode { mode: mode@ },
            ConfigError::NotPositive { name, value } => ConfigErrorView::NotPositive {
                name: name@,
                value: *value as int,
            },
            ConfigError::Negative { name, value } => ConfigErrorView::Negative {
                name: name@,
                value: *value as int,
            },
            ConfigError::OverlapTooLarge { overlap, size } => ConfigErrorView::OverlapTooLarge {
                overlap: *overlap as int,
                size: *size as int,
            },
            ConfigError::ZeroCount { name } => ConfigErrorView::ZeroCount { name: name@ },
        }
    }
}

impl ConfigErrorView {
    pub open spec fn message(self) -> Seq<char> {
        match self {
            ConfigErrorView::InvalidPort { raw } => "failed to parse "@ + BIND_PORT_ENV@
                + " value '"@ + raw + "' as a valid TCP port"@,
            ConfigErrorView::InvalidInteger { name, raw } => "failed to parse "@ + name
                + " value '"@ + raw + "' as an integer"@,
            ConfigErrorView::InvalidCount { name, raw } => "failed to parse "@ + name
                + " value '"@ + raw + "' as a non-negative integer"@,
            ConfigErrorView::Missing { name } => name + " must be set"@,
            ConfigErrorView::Blank { name } => name + " must not be empty"@,
            ConfigErrorView::MissingForOpenAi { name } => name + " must be set when "@
                + EMBEDDING_MODE_ENV@ + "=openai"@,
            ConfigErrorView::BlankForOpenAi { name } => name + " must not be empty when "@
                + EMBEDDING_MODE_ENV@ + "=openai"@,
            ConfigErrorView::UnknownMode { mode } => EMBEDDING_MODE_ENV@
                + " must be either 'tei' or 'openai', got '"@ + mode + "'"@,
            ConfigErrorView::NotPositive { name, value } => name
                + " must be greater than 0, got "@ + signed_decimal(value),
            ConfigErrorView::Negative { name, value } => name
                + " must be greater than or equal to 0, got "@ + signed_decimal(value),
            ConfigErrorView::OverlapTooLarge { overlap, size } => EMBEDDING_CHUNK_OVERLAP_ENV@
                + " must be less than "@ + EMBEDDING_CHUNK_SIZE_ENV@ + ", got "@
                + signed_decimal(overlap) + " >= "@ + signed_decimal(size),
            ConfigErrorView::ZeroCount { name } => name + " must be greater than 0, got 0"@,
        }
    }
}

impl ConfigError {
    /// What is wrong, in words.
    pub fn message(&self) -> (text: String)
        ensures
            text@ == self@.message(),
    {
        match self {
            ConfigError::InvalidPort { raw } => String::from_str("failed to parse ").concat(
                BIND_PORT_ENV,
            ).concat(" value '").concat(raw.as_str()).concat("' as a valid TCP port"),
            ConfigError::InvalidInteger { name, raw } => String::from_str(
                "failed to parse ",
            ).concat(name).concat(" value '").concat(raw.as_str()).concat("' as an integer"),
            ConfigError::InvalidCount { name, raw } => String::from_str("failed to parse ").concat(
                name,
            ).concat(" value '").concat(raw.as_str()).concat("' as a non-negative integer"),
            ConfigError::Missing { name } => String::from_str(name).concat(" must be set"),
            ConfigError::Blank { name } => String::from_str(name).concat(" must not be empty"),
            ConfigError::MissingForOpenAi { name } => String::from_str(name).concat(
                " must be set when ",
            ).concat(EMBEDDING_MODE_ENV).concat("=openai"),
            ConfigError::BlankForOpenAi { name } => String::from_str(name).concat(
                " must not be empty when ",
            ).concat(EMBEDDING_MODE_ENV).concat("=openai"),
            ConfigError::UnknownMode { mode } => String::from_str(EMBEDDING_MODE_ENV).concat(
                " must be either 'tei' or 'openai', got '",
            ).concat(mode.as_str()).concat("'"),
            ConfigError::NotPositive { name, value } => String::from_str(name).concat(
                " must be greater than 0, got ",
            ).concat(signed_decimal_of(*value).as_str()),
            ConfigError::Negative { name, value } => String::from_str(name).concat(
                " must be greater than or equal to 0, got ",
            ).concat(signed_decimal_of(*value).as_str()),
            ConfigError::OverlapTooLarge { overlap, size } => String::from_str(
                EMBEDDING_CHUNK_OVERLAP_ENV,
            ).concat(" must be less than ").concat(EMBEDDING_CHUNK_SIZE_ENV).concat(
                ", got ",
            ).concat(signed_decimal_of(*overlap).as_str()).concat(" >= ").concat(
                signed_decimal_of(*size).as_str(),
            ),
            ConfigError::ZeroCount { name } => String::from_str(name).concat(
                " must be greater than 0, got 0",
            ),
        }
    }
}

/// Whether a text has nothing but white space.
pub open spec fn is_blank(s: Seq<char>) -> bool {
    trimmed(s).len() == 0
}

fn blank(s: &str) -> (yes: bool)
    ensures
        yes == is_blank(s@),
{
    let chars: Vec<char> = chars_of(s);
    trim(chars.as_slice()).len() == 0
}

/// The value of a variable, or a default where it is not set.
pub open spec fn text_or(value: Option<String>, default: Seq<char>) -> Seq<char> {
    match value {
        Some(value) => value@,
        None => default,
    }
}

/// The value of a variable, or a default where it is not set.
pub(crate) fn get_or(value: &Option<String>, default: &str) -> (text: String)
    ensures
        text@ == text_or(*value, default@),
{
    match value {
        Some(value) => value.clone(),
        None => default.to_owned(),
    }
}

/// The port: a number up to 65535, or the default.
pub open spec fn port_of(value: Option<String>) -> Result<int, ConfigErrorView> {
    match value {
        Some(raw) => match unsigned_value(raw@, 65535) {
            Some(port) => Ok(port),
            None => Err(ConfigErrorView::InvalidPort { raw: raw@ }),
        },
        None => Ok(DEFAULT_BIND_PORT as int),
    }
}

/// A number, or a default.
pub open spec fn integer_of(value: Option<String>, name: Seq<char>, default: int) -> Result<
    int,
    ConfigErrorView,
> {
    match value {
        Some(raw) => match signed_value(raw@, i64::MIN as int, i64::MAX as int) {
            Some(n) => Ok(n),
            None => Err(ConfigErrorView::InvalidInteger { name, raw: raw@ }),
        },
        None => Ok(default),
    }
}

/// A count, or a default.
pub open spec fn count_of(value: Option<String>, name: Seq<char>, default: int) -> Result<
    int,
    ConfigErrorView,
> {
    match value {
        Some(raw) => match unsigned_value(raw@, usize::MAX as nat) {
            Some(n) => Ok(n),
            None => Err(ConfigErrorView::InvalidCount { name, raw: raw@ }),
        },
        None => Ok(default),
    }
}

/// The model's name, which has to be given.
pub open spec fn model_of(value: Option<String>) -> Result<Seq<char>, ConfigErrorView> {
    match value {
        Some(name) => if is_blank(name@) {
            Err(ConfigErrorView::Blank { name: EMBEDDING_MODEL_ENV@ })
        } else {
            Ok(name@)
        },
        None => Err(ConfigErrorView::Missing { name: EMBEDDING_MODEL_ENV@ }),
    }
}

/// The service that makes embeddings, by the mode.
pub open spec fn provider_of(env: Environment) -> Result<ProviderView, ConfigErrorView> {
    let mode = text_or(env.embedding_mode, "tei"@);
    if mode == "tei"@ {
        let base_url = text_or(env.embedding_base_url, DEFAULT_TEI_BASE_URL@);
        if is_blank(base_url) {
            Err(ConfigErrorView::Blank { name: EMBEDDING_BASE_URL_ENV@ })
        } else {
            Ok(ProviderView::Tei { base_url })
        }
    } else if mode == "openai"@ {
        match env.embedding_base_url {
            None => Err(ConfigErrorView::MissingForOpenAi { name: EMBEDDING_BASE_URL_ENV@ }),
            Some(base_url) => if is_blank(base_url@) {
                Err(ConfigErrorView::BlankForOpenAi { name: EMBEDDING_BASE_URL_ENV@ })
            } else {
                match env.embedding_auth_token {
                    None => Err(
                        ConfigErrorView::MissingForOpenAi { name: EMBEDDING_AUTH_TOKEN_ENV@ },
                    ),
                    Some(auth_token) => if is_blank(auth_token@) {
                        Err(ConfigErrorView::BlankForOpenAi { name: EMBEDDING_AUTH_TOKEN_ENV@ })
                    } else {
                        Ok(
                            ProviderView::OpenAi {
                                base_url: base_url@,
                                auth_token: auth_token@,
                            },
                        )
                    },
                }
            },
        }
    } else {
        Err(ConfigErrorView::UnknownMode { mode })
    }
}

/// What is wrong with the settings of the model, if anything is.
pub open spec fn settings_error(dimensions: int, size: int, overlap: int) -> Option<
    ConfigErrorView,
> {
    if dimensions <= 0 {
        Some(ConfigErrorView::NotPositive { name: EMBEDDING_DIMENSIONS_ENV@, value: dimensions })
    } else if size <= 0 {
        Some(ConfigErrorView::NotPositive { name: EMBEDDING_CHUNK_SIZE_ENV@, value: size })
    } else if overlap < 0 {
        Some(ConfigErrorView::Negative { name: EMBEDDING_CHUNK_OVERLAP_ENV@, value: overlap })
    } else if overlap >= size {
        Some(ConfigErrorView::OverlapTooLarge { overlap, size })
    } else {
        None
    }
}

/// The configuration that the variables give, or the first thing that is wrong with
/// them.
pub open spec fn config_of(env: Environment) -> Result<ConfigView, ConfigErrorView> {
    match port_of(env.bind_port) {
        Err(error) => Err(error),
        Ok(bind_port) => match model_of(env.embedding_model) {
            Err(error) => Err(error),
            Ok(embedding_model) => match integer_of(
                env.embedding_dimensions,
                EMBEDDING_DIMENSIONS_ENV@,
                DEFAULT_EMBEDDING_DIMENSIONS as int,
            ) {
                Err(error) => Err(error),
                Ok(dimensions) => match integer_of(
                    env.embedding_chunk_size,
                    EMBEDDING_CHUNK_SIZE_ENV@,
                    DEFAULT_EMBEDDING_CHUNK_SIZE as int,
                ) {
                    Err(error) => Err(error),
                    Ok(size) => match integer_of(
                        env.embedding_chunk_overlap,
                        EMBEDDING_CHUNK_OVERLAP_ENV@,
                        DEFAULT_EMBEDDING_CHUNK_OVERLAP as int,
                    ) {
                        Err(error) => Err(error),
                        Ok(overlap) => match counts_of(env) {
                            Err(error) => Err(error),
                            Ok((batch_size, workers, pool_size)) => match provider_of(env) {
                                Err(error) => Err(error),
                                Ok(provider) => match settings_error(dimensions, size, overlap) {
                                    Some(error) => Err(error),
                                    None => Ok(
                                        ConfigView {
                                            data_dir: text_or(env.data_dir, DEFAULT_DATA_DIR@),
                                            data_display_dir: text_or(
                                                env.data_display_dir,
                                                text_or(env.data_dir, DEFAULT_DATA_DIR@),
                                            ),
                                            resource_dir: text_or(
                                                env.resource_dir,
                                                DEFAULT_RESOURCE_DIR@,
                                            ),
                                            resource_display_dir: text_or(
                                                env.resource_display_dir,
                                                text_or(env.resource_dir, DEFAULT_RESOURCE_DIR@),
                                            ),
                                            bind_host: text_or(env.bind_host, DEFAULT_BIND_HOST@),
                                            bind_port,
                                            database_pool_size: pool_size,
                                            embedding_model,
                                            embedding_dimensions: dimensions,
                                            embedding_chunk_size: size,
                                            embedding_chunk_overlap: overlap,
                                            embedding_max_batch_size: batch_size,
                                            embedding_worker_count: workers,
                                            embedding_provider: provider,
                                        },
                                    ),
                                },
                            },
                        },
                    },
                },
            },
        },
    }
}

/// The sizes of a batch and of the pool, which are positive, and the number of workers
/// between them.
pub open spec fn counts_of(env: Environment) -> Result<(int, int, int), ConfigErrorView> {
    match count_of(
        env.embedding_max_batch_size,
        EMBEDDING_MAX_BATCH_SIZE_ENV@,
        DEFAULT_EMBEDDING_MAX_BATCH_SIZE as int,
    ) {
        Err(error) => Err(error),
        Ok(batch_size) => if batch_size == 0 {
            Err(ConfigErrorView::ZeroCount { name: EMBEDDING_MAX_BATCH_SIZE_ENV@ })
        } else {
            match count_of(
                env.embedding_worker_count,
                EMBEDDING_WORKER_COUNT_ENV@,
                DEFAULT_WORKER_COUNT as int,
            ) {
                Err(error) => Err(error),
                Ok(workers) => match count_of(
                    env.database_pool_size,
                    DATABASE_POOL_SIZE_ENV@,
                    DEFAULT_DATABASE_POOL_SIZE as int,
                ) {
                    Err(error) => Err(error),
                    Ok(pool_size) => if pool_size == 0 {
                        Err(ConfigErrorView::ZeroCount { name: DATABASE_POOL_SIZE_ENV@ })
                    } else {
                        Ok((batch_size, workers, pool_size))
                    },
                },
            }
        },
    }
}

/// Reads the port.
pub(crate) fn load_port(value: &Option<String>) -> (result: Result<u16, ConfigError>)
    ensures
        match result {
            Ok(port) => port_of(*value) == Ok::<int, ConfigErrorView>(port as int),
            Err(error) => port_of(*value) == Err::<int, ConfigErrorView>(error@),
        },
{
    match value {
        Some(raw) => match parse_unsigned(raw.as_str(), 65535) {
            Some(port) => Ok(port as u16),
            None => Err(ConfigError::InvalidPort { raw: raw.clone() }),
        },
        None => Ok(DEFAULT_BIND_PORT),
    }
}

fn load_integer(value: &Option<String>, name: &'static str, default: i64) -> (result: Result<
    i64,
    ConfigError,
>)
    ensures
        match result {
            Ok(n) => integer_of(*value, name@, default as int) == Ok::<int, ConfigErrorView>(
                n as int,
            ),
            Err(error) => integer_of(*value, name@, default as int) == Err::<int, ConfigErrorView>(
                error@,
            ),
        },
{
    match value {
        Some(raw) => match parse_i64(raw.as_str()) {
            Some(n) => Ok(n),
            None => Err(ConfigError::InvalidInteger { name, raw: raw.clone() }),
        },
        None => Ok(default),
    }
}

fn load_count(value: &Option<String>, name: &'static str, default: usize) -> (result: Result<
    usize,
    ConfigError,
>)
    ensures
        match result {
            Ok(n) => count_of(*value, name@, default as int) == Ok::<int, ConfigErrorView>(
                n as int,
            ),
            Err(error) => count_of(*value, name@, default as int) == Err::<int, ConfigErrorView>(
                error@,
            ),
        },
{
    match value {
        Some(raw) => match parse_unsigned(raw.as_str(), usize::MAX as u64) {
            Some(n) => Ok(n as usize),
            None => Err(ConfigError::InvalidCount { name, raw: raw.clone() }),
        },
        None => Ok(default),
    }
}

fn load_counts(env: &Environment) -> (result: Result<(usize, usize, usize), ConfigError>)
    ensures
        match result {
            Ok(counts) => counts_of(*env) == Ok::<(int, int, int), ConfigErrorView>(
                (counts.0 as int, counts.1 as int, counts.2 as int),
            ),
            Err(error) => counts_of(*env) == Err::<(int, int, int), ConfigErrorView>(error@),
        },
{
    let batch_size: usize = match load_count(
        &env.embedding_max_batch_size,
        EMBEDDING_MAX_BATCH_SIZE_ENV,
        DEFAULT_EMBEDDING_MAX_BATCH_SIZE,
    ) {
        Ok(n) => n,
        Err(error) => {
            return Err(error);
        },
    };
    if batch_size == 0 {
        return Err(ConfigError::ZeroCount { name: EMBEDDING_MAX_BATCH_SIZE_ENV });
    }
    let workers: usize = match load_count(
        &env.embedding_worker_count,
        EMBEDDING_WORKER_COUNT_ENV,
        DEFAULT_WORKER_COUNT,
    ) {
        Ok(n) => n,
        Err(error) => {
            return Err(error);
        },
    };
    let pool_size: usize = match load_count(
        &env.database_pool_size,
        DATABASE_POOL_SIZE_ENV,
        DEFAULT_DATABASE_POOL_SIZE,
    ) {
        Ok(n) => n,
        Err(error) => {
            return Err(error);
        },
    };
    if pool_size == 0 {
        return Err(ConfigError::ZeroCount { name: DATABASE_POOL_SIZE_ENV });
    }
    Ok((batch_size, workers, pool_size))
}

fn load_embedding_model(value: &Option<String>) -> (result: Result<String, ConfigError>)
    ensures
        match result {
            Ok(name) => model_of(*value) == Ok::<Seq<char>, ConfigErrorView>(name@),
            Err(error) => model_of(*value) == Err::<Seq<char>, ConfigErrorView>(error@),
        },
{
    match value {
        Some(name) => if blank(name.as_str()) {
            Err(ConfigError::Blank { name: EMBEDDING_MODEL_ENV })
        } else {
            Ok(name.clone())
        },
        None => Err(ConfigError::Missing { name: EMBEDDING_MODEL_ENV }),
    }
}

fn load_embedding_provider(env: &Environment) -> (result: Result<EmbeddingProvider, ConfigError>)
    ensures
        match result {
            Ok(provider) => provider_of(*env) == Ok::<ProviderView, ConfigErrorView>(provider@),
            Err(error) => provider_of(*env) == Err::<ProviderView, ConfigErrorView>(error@),
        },
{
    let mode: String = get_or(&env.embedding_mode, "tei");
    if same_text(mode.as_str(), "tei") {
        let base_url: String = get_or(&env.embedding_base_url, DEFAULT_TEI_BASE_URL);
        if blank(base_url.as_str()) {
            return Err(ConfigError::Blank { name: EMBEDDING_BASE_URL_ENV });
        }
        Ok(EmbeddingProvider::Tei { base_url })
    } else if same_text(mode.as_str(), "openai") {
        let base_url: String = match &env.embedding_base_url {
            Some(base_url) => base_url.clone(),
            None => {
                return Err(ConfigError::MissingForOpenAi { name: EMBEDDING_BASE_URL_ENV });
            },
        };
        if blank(base_url.as_str()) {
            return Err(ConfigError::BlankForOpenAi { name: EMBEDDING_BASE_URL_ENV });
        }
        let auth_token: String = match &env.embedding_auth_token {
            Some(auth_token) => auth_token.clone(),
            None => {
                return Err(ConfigError::MissingForOpenAi { name: EMBEDDING_AUTH_TOKEN_ENV });
            },
        };
        if blank(auth_token.as_str()) {
            return Err(ConfigError::BlankForOpenAi { name: EMBEDDING_AUTH_TOKEN_ENV });
        }
        Ok(EmbeddingProvider::OpenAi { base_url, auth_token })
    } else {
        Err(ConfigError::UnknownMode { mode })
    }
}

fn validate_embedding_settings(
    embedding_dimensions: i64,
    embedding_chunk_size: i64,
    embedding_chunk_overlap: i64,
) -> (result: Result<(), ConfigError>)
    ensures
        match result {
            Ok(()) => settings_error(
                embedding_dimensions as int,
                embedding_chunk_size as int,
                embedding_chunk_overlap as int,
            ) is None,
            Err(error) => settings_error(
                embedding_dimensions as int,
                embedding_chunk_size as int,
                embedding_chunk_overlap as int,
            ) == Some(error@),
        },
{
    if embedding_dimensions <= 0 {
        return Err(
            ConfigError::NotPositive {
                name: EMBEDDING_DIMENSIONS_ENV,
                value: embedding_dimensions,
            },
        );
    }
    if embedding_chunk_size <= 0 {
        return Err(
            ConfigError::NotPositive {
                name: EMBEDDING_CHUNK_SIZE_ENV,
                value: embedding_chunk_size,
            },
        );
    }
    if embedding_chunk_overlap < 0 {
        return Err(
            ConfigError::Negative {
                name: EMBEDDING_CHUNK_OVERLAP_ENV,
                value: embedding_chunk_overlap,
            },
        );
    }
    if embedding_chunk_overlap >= embedding_chunk_size {
        return Err(
            ConfigError::OverlapTooLarge {
                overlap: embedding_chunk_overlap,
                size: embedding_chunk_size,
            },
        );
    }
    Ok(())
}

/// Reads the configuration.
pub fn load(env: &Environment) -> (result: Result<Config, ConfigError>)
    ensures
        match result {
            Ok(config) => config_of(*env) == Ok::<ConfigView, ConfigErrorView>(config@),
            Err(error) => config_of(*env) == Err::<ConfigView, ConfigErrorView>(error@),
        },
{
    let data_dir: String = get_or(&env.data_dir, DEFAULT_DATA_DIR);
    let data_display_dir: String = get_or(&env.data_display_dir, data_dir.as_str());
    let resource_dir: String = get_or(&env.resource_dir, DEFAULT_RESOURCE_DIR);
    let resource_display_dir: String = get_or(&env.resource_display_dir, resource_dir.as_str());
    let bind_host: String = get_or(&env.bind_host, DEFAULT_BIND_HOST);
    let bind_port: u16 = match load_port(&env.bind_port) {
        Ok(port) => port,
        Err(error) => {
            return Err(error);
        },
    };
    let embedding_model: String = match load_embedding_model(&env.embedding_model) {
        Ok(name) => name,
        Err(error) => {
            return Err(error);
        },
    };
    let embedding_dimensions: i64 = match load_integer(
        &env.embedding_dimensions,
        EMBEDDING_DIMENSIONS_ENV,
        DEFAULT_EMBEDDING_DIMENSIONS,
    ) {
        Ok(n) => n,
        Err(error) => {
            return Err(error);
        },
    };
    let embedding_chunk_size: i64 = match load_integer(
        &env.embedding_chunk_size,
        EMBEDDING_CHUNK_SIZE_ENV,
        DEFAULT_EMBEDDING_CHUNK_SIZE,
    ) {
        Ok(n) => n,
        Err(error) => {
            return Err(error);
        },
    };
    let embedding_chunk_overlap: i64 = match load_integer(
        &env.embedding_chunk_overlap,
        EMBEDDING_CHUNK_OVERLAP_ENV,
        DEFAULT_EMBEDDING_CHUNK_OVERLAP,
    ) {
        Ok(n) => n,
        Err(error) => {
            return Err(error);
        },
    };
    let (embedding_max_batch_size, embedding_worker_count, database_pool_size) =
        match load_counts(env) {
        Ok(counts) => counts,
        Err(error) => {
            return Err(error);
        },
    };
    let embedding_provider: EmbeddingProvider = match load_embedding_provider(env) {
        Ok(provider) => provider,
        Err(error) => {
            return Err(error);
        },
    };
    match validate_embedding_settings(
        embedding_dimensions,
        embedding_chunk_size,
        embedding_chunk_overlap,
    ) {
        Ok(()) => {},
        Err(error) => {
            return Err(error);
        },
    }
    Ok(
        Config {
            data_dir,
            data_display_dir,
            resource_dir,
            resource_display_dir,
            bind_host,
            bind_port,
            database_pool_size,
            embedding_model,
            embedding_dimensions,
            embedding_chunk_size,
            embedding_chunk_overlap,
            embedding_max_batch_size,
            embedding_worker_count,
            embedding_provider,
        },
    )
}

/// A configuration that was read can be used: chunks advance, batches and the pool hold
/// something, and the model and its service have names.
pub proof fn lemma_loaded_is_usable(env: Environment)
    requires
        config_of(env) is Ok,
    ensures
        ({
            let config = config_of(env)->Ok_0;
            &&& config.embedding_dimensions > 0
            &&& 0 <= config.embedding_chunk_overlap < config.embedding_chunk_size
            &&& config.embedding_max_batch_size > 0
            &&& config.database_pool_size > 0
            &&& 0 <= config.bind_port <= 65535
            &&& !is_blank(config.embedding_model)
            &&& !is_blank(config.embedding_provider.base_url())
            &&& config.embedding_provider matches ProviderView::OpenAi { auth_token, .. }
                ==> !is_blank(auth_token)
        }),
{
}

/// `s` without `/` and `\` at its end.
pub open spec fn without_separators(s: Seq<char>) -> Seq<char>
    decreases s.len(),
{
    if s.len() > 0 && (s.last() == '/' || s.last() == '\\') {
        without_separators(s.drop_last())
    } else {
        s
    }
}

impl Config {
    /// Where the server listens.
    pub fn bind_address(&self) -> (address: String)
        ensures
            address@ == self.bind_host@ + ":"@ + decimal(self.bind_port as nat),
    {
        String::from_str(self.bind_host.as_str()).concat(":").concat(
            decimal_of(self.bind_port as u64).as_str(),
        )
    }

    /// Where the database is: in the data directory.
    pub fn sqlite_path(&self) -> (path: String)
        ensures
            path@ == without_separators(self.data_dir@) + "/ask.sqlite3"@,
    {
        let chars: Vec<char> = chars_of(self.data_dir.as_str());
        let mut end: usize = chars.len();
        proof {
            assert(chars@.take(end as int) =~= chars@);
        }
        while end > 0 && (chars[end - 1] == '/' || chars[end - 1] == '\\')
            invariant
                end <= chars.len(),
                chars@ == self.data_dir@,
                without_separators(chars@) == without_separators(chars@.take(end as int)),
            decreases end,
        {
            proof {
                assert(chars@.take(end as int).drop_last() =~= chars@.take(end - 1));
            }
            end = end - 1;
        }
        let kept: &[char] = vstd::slice::slice_subrange(chars.as_slice(), 0, end);
        proof {
            assert(kept@ =~= chars@.take(end as int));
        }
        string_of(kept).concat("/ask.sqlite3")
    }

    /// What decides whether stored embeddings can be used again.
    pub fn embedding_identity(&self) -> (identity: EmbeddingIdentity)
        ensures
            identity@ == (IdentityView {
                name: self.embedding_model@,
                dimensions: self.embedding_dimensions,
                chunk_size: self.embedding_chunk_size,
                chunk_overlap: self.embedding_chunk_overlap,
            }),
    {
        EmbeddingIdentity {
            name: self.embedding_model.clone(),
            dimensions: self.embedding_dimensions,
            chunk_size: self.embedding_chunk_size,
            chunk_overlap: self.embedding_chunk_overlap,
        }
    }
}

/// What is wrong with the size of a pool.
#[derive(Clone, Copy, Debug, PartialEq, Eq, Structural)]
pub enum PoolSizeError {
    Zero,
    TooLarge,
}

impl PoolSizeError {
    pub open spec fn spec_message(&self) -> Seq<char> {
        match self {
            PoolSizeError::Zero => "database pool size must be greater than 0"@,
            PoolSizeError::TooLarge => "database pool size must fit into u32"@,
        }
    }

    /// What is wrong, in words.
    pub fn message(&self) -> (text: String)
        ensures
            text@ == self.spec_message(),
    {
        match self {
            PoolSizeError::Zero => String::from_str("database pool size must be greater than 0"),
            PoolSizeError::TooLarge => String::from_str("database pool size must fit into u32"),
        }
    }
}

/// The size of a pool, as a pool takes it.
pub fn pool_max_size(max_size: usize) -> (result: Result<u32, PoolSizeError>)
    ensures
        match result {
            Ok(size) => size == max_size && size > 0,
            Err(PoolSizeError::Zero) => max_size == 0,
            Err(PoolSizeError::TooLarge) => max_size > u32::MAX,
        },
{
    if max_size == 0 {
        return Err(PoolSizeError::Zero);
    }
    if max_size as u64 > u32::MAX as u64 {
        return Err(PoolSizeError::TooLarge);
    }
    Ok(max_size as u32)
}

/// What of the configuration may be shown.
#[derive(Clone, Debug, PartialEq, Eq)]
pub struct RuntimeConfig {
    /// The directory with the server's own data.
    pub data_dir: String,
    /// The greatest number of connections to the database.
    pub database_pool_size: usize,
    /// The directory with the files that may be ingested.
    pub resource_dir: String,
    /// The name of the mode.
    pub embedding_mode: String,
    /// Where the service is that makes embeddings.
    pub embedding_base_url: String,
    /// The greatest number of texts in one request.
    pub embedding_max_batch_size: usize,
    /// The number of workers.
    pub embedding_worker_count: usize,
}

impl RuntimeConfig {
    /// What may be shown of `config`; its token is not part of it.
    pub fn from_config(config: &Config) -> (shown: RuntimeConfig)
        ensures
            shown.data_dir@ == config.data_dir@,
            shown.database_pool_size == config.database_pool_size,
            shown.resource_dir@ == config.resource_dir@,
            shown.embedding_mode@ == config@.embedding_provider.mode_name(),
            shown.embedding_base_url@ == config@.embedding_provider.base_url(),
            shown.embedding_max_batch_size == config.embedding_max_batch_size,
            shown.embedding_worker_count == config.embedding_worker_count,
    {
        RuntimeConfig {
            data_dir: config.data_dir.clone(),
            database_pool_size: config.database_pool_size,
            resource_dir: config.resource_dir.clone(),
            embedding_mode: config.embedding_provider.mode_name().to_owned(),
            embedding_base_url: config.embedding_provider.base_url().to_owned(),
            embedding_max_batch_size: config.embedding_max_batch_size,
            embedding_worker_count: config.embedding_worker_count,
        }
    }
}

/// What [`without_separators`] leaves: the text up to where it has only separators, and no
/// separator at its end.
pub proof fn lemma_without_separators(s: Seq<char>)
    ensures
        ({
            let kept = without_separators(s);
            &&& kept.len() <= s.len()
            &&& kept == s.take(kept.len() as int)
            &&& forall|i: int|
                kept.len() <= i < s.len() ==> #[trigger] s[i] == '/' || s[i] == '\\'
            &&& kept.len() > 0 ==> kept.last() != '/' && kept.last() != '\\'
        }),
    decreases s.len(),
{
    if s.len() > 0 && (s.last() == '/' || s.last() == '\\') {
        let head = s.drop_last();
        lemma_without_separators(head);
        let kept = without_separators(s);
        assert(head.take(kept.len() as int) =~= s.take(kept.len() as int));
        assert forall|i: int| kept.len() <= i < s.len() implies #[trigger] s[i] == '/' || s[i]
            == '\\' by {
            if i < head.len() {
                assert(head[i] == s[i]);
            }
        }
    } else {
        assert(s.take(s.len() as int) =~= s);
    }
}

/// Whether a text has a character that is no white space.
pub open spec fn says_something(s: Seq<char>) -> bool {
    exists|i: int| 0 <= i < s.len() && !is_space(#[trigger] s[i])
}

/// A text is blank if and only if all of it is white space.
pub proof fn lemma_blank(s: Seq<char>)
    ensures
        is_blank(s) <==> !says_something(s),
{
    let (a, b) = lemma_trimmed(s);
    if a < b {
        assert(!is_space(s[a]));
    } else if says_something(s) {
        let i = choose|i: int| 0 <= i < s.len() && !is_space(#[trigger] s[i]);
        assert(is_space(s[i]));
    }
}

/// Whether a variable gives the number `n`: in decimal, or by a default.
pub open spec fn gives(value: Option<String>, default: int, n: int) -> bool {
    match value {
        Some(raw) => raw@ == if n < 0 {
            seq!['-'] + decimal((-n) as nat)
        } else {
            decimal(n as nat)
        },
        None => n == default,
    }
}

/// Whether variables give the service: the local one unless they ask for the other, which
/// has no default.
pub open spec fn gives_provider(env: Environment, provider: ProviderView) -> bool {
    match provider {
        ProviderView::Tei { base_url } => {
            &&& env.embedding_mode matches Some(mode) ==> mode@ == "tei"@
            &&& match env.embedding_base_url {
                Some(given) => given@ == base_url,
                None => base_url == "http://localhost:18080"@,
            }
            &&& says_something(base_url)
        },
        ProviderView::OpenAi { base_url, auth_token } => {
            &&& env.embedding_mode matches Some(mode) && mode@ == "openai"@
            &&& env.embedding_base_url matches Some(given) && given@ == base_url
            &&& env.embedding_auth_token matches Some(given) && given@ == auth_token
            &&& says_something(base_url)
            &&& says_something(auth_token)
        },
    }
}

/// Whether a variable gives this text, by itself or by a default.
pub open spec fn gives_text(value: Option<String>, default: Seq<char>, text: Seq<char>) -> bool {
    match value {
        Some(given) => text == given@,
        None => text == default,
    }
}

proof fn lemma_gives(value: Option<String>, default: int, n: int, name: Seq<char>)
    requires
        gives(value, default, n),
    ensures
        i64::MIN <= n <= i64::MAX ==> integer_of(value, name, default) == Ok::<
            int,
            ConfigErrorView,
        >(n),
        0 <= n <= usize::MAX ==> count_of(value, name, default) == Ok::<int, ConfigErrorView>(n),
        0 <= n <= 65535 && default == 3000 ==> port_of(value) == Ok::<int, ConfigErrorView>(n),
{
    if n < 0 {
        lemma_signs_read_back((-n) as nat);
    } else {
        lemma_decimal_reads_back(n as nat);
        let s = decimal(n as nat);
        assert(crate::chunking::is_digit(s[0]));
        assert(s[0] != '-');
    }
}

/// A good environment is taken as it is: where every number is in its range and what is
/// needed is there, each part of the configuration is what its own variable gives, or its
/// default.
pub proof fn lemma_good_environment(env: Environment, config: ConfigView)
    requires
        gives_text(env.data_dir, ".data"@, config.data_dir),
        gives_text(env.data_display_dir, config.data_dir, config.data_display_dir),
        gives_text(env.resource_dir, "."@, config.resource_dir),
        gives_text(env.resource_display_dir, config.resource_dir, config.resource_display_dir),
        gives_text(env.bind_host, "0.0.0.0"@, config.bind_host),
        env.embedding_model matches Some(model) && model@ == config.embedding_model,
        says_something(config.embedding_model),
        gives(env.bind_port, 3000, config.bind_port),
        0 <= config.bind_port <= 65535,
        gives(env.database_pool_size, 8, config.database_pool_size),
        0 < config.database_pool_size <= usize::MAX,
        gives(env.embedding_dimensions, 768, config.embedding_dimensions),
        0 < config.embedding_dimensions <= i64::MAX,
        gives(env.embedding_chunk_size, 512, config.embedding_chunk_size),
        gives(env.embedding_chunk_overlap, 0, config.embedding_chunk_overlap),
        0 <= config.embedding_chunk_overlap < config.embedding_chunk_size <= i64::MAX,
        gives(env.embedding_max_batch_size, 32, config.embedding_max_batch_size),
        0 < config.embedding_max_batch_size <= usize::MAX,
        gives(env.embedding_worker_count, 2, config.embedding_worker_count),
        0 <= config.embedding_worker_count <= usize::MAX,
        gives_provider(env, config.embedding_provider),
    ensures
        config_of(env) == Ok::<ConfigView, ConfigErrorView>(config),
{
    lemma_gives(env.bind_port, 3000, config.bind_port, ""@);
    lemma_gives(
        env.database_pool_size,
        8,
        config.database_pool_size,
        DATABASE_POOL_SIZE_ENV@,
    );
    lemma_gives(
        env.embedding_dimensions,
        768,
        config.embedding_dimensions,
        EMBEDDING_DIMENSIONS_ENV@,
    );
    lemma_gives(
        env.embedding_chunk_size,
        512,
        config.embedding_chunk_size,
        EMBEDDING_CHUNK_SIZE_ENV@,
    );
    lemma_gives(
        env.embedding_chunk_overlap,
        0,
        config.embedding_chunk_overlap,
        EMBEDDING_CHUNK_OVERLAP_ENV@,
    );
    lemma_gives(
        env.embedding_max_batch_size,
        32,
        config.embedding_max_batch_size,
        EMBEDDING_MAX_BATCH_SIZE_ENV@,
    );
    lemma_gives(
        env.embedding_worker_count,
        2,
        config.embedding_worker_count,
        EMBEDDING_WORKER_COUNT_ENV@,
    );
    lemma_blank(config.embedding_model);
    match config.embedding_provider {
        ProviderView::Tei { base_url } => {
            lemma_blank(base_url);
        },
        ProviderView::OpenAi { base_url, auth_token } => {
            lemma_blank(base_url);
            lemma_blank(auth_token);
            reveal_strlit("tei");
            reveal_strlit("openai");
            assert("tei"@.len() != "openai"@.len());
        },
    }
}

/// A bad environment is refused: a variable that is no number of its range, a model or a
/// service without a name, a mode that is none, or chunks that would not advance.
pub proof fn lemma_bad_environment(env: Environment)
    ensures
        config_of(env) is Ok ==> {
            &&& env.embedding_model matches Some(model) && says_something(model@)
            &&& env.embedding_mode matches Some(mode) ==> mode@ == "tei"@ || mode@ == "openai"@
            &&& env.embedding_base_url matches Some(url) ==> says_something(url@)
            &&& env.embedding_mode matches Some(mode) ==> mode@ == "openai"@ ==> (
            env.embedding_base_url is Some && (env.embedding_auth_token matches Some(token)
                && says_something(token@)))
            &&& env.bind_port matches Some(raw) ==> number_value(raw@) is Some
            &&& env.database_pool_size matches Some(raw) ==> number_value(raw@) is Some
            &&& env.embedding_dimensions matches Some(raw) ==> number_value(raw@) is Some
            &&& env.embedding_chunk_size matches Some(raw) ==> number_value(raw@) is Some
            &&& env.embedding_chunk_overlap matches Some(raw) ==> number_value(raw@) is Some
            &&& env.embedding_max_batch_size matches Some(raw) ==> number_value(raw@) is Some
            &&& env.embedding_worker_count matches Some(raw) ==> number_value(raw@) is Some
        },
{
    if let Some(model) = env.embedding_model {
        lemma_blank(model@);
    }
    if let Some(url) = env.embedding_base_url {
        lemma_blank(url@);
    }
    if let Some(token) = env.embedding_auth_token {
        lemma_blank(token@);
    }
    reveal_strlit("tei");
    reveal_strlit("openai");
    assert("tei"@.len() != "openai"@.len());
}

} // verus!
