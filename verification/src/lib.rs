//! A bigram Markov chain over grouped text: ingestion of plain text and chat
//! messages into an interned vocabulary with transition records, and bounded
//! random generation of word sequences from those records.

pub mod append;
pub mod date;
pub mod generate;
pub mod message;
pub mod model;
pub mod tokenize;
pub mod vocabulary;

pub use append::ChainAppend;
pub use date::AppendError;
pub use generate::ChainGenerate;
pub use message::{ExtractedMessage, MessageEvent};
pub use model::{
    ChainEntry, ChainPrefix, ChainSuffix, ChainView, Datestamp, MarkovChain, SourceView,
    TextSource, NGRAM_CNT,
};
