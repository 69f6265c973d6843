pub mod bytes;
pub mod capture;
pub mod compositor;
pub mod demo;
pub mod describe;
pub mod documents;
pub mod encode;
pub mod examples;
pub mod features;
pub mod fingerprint;
pub mod flatten;
pub mod flex;
pub mod frame;
pub mod hir;
pub mod input;
pub mod inspect;
pub mod kin;
pub mod layout;
pub mod likeness;
pub mod paint;
pub mod paths;
pub mod pixels;
pub mod plan;
pub mod run;
pub mod runtime;
pub mod scalar;
pub mod scene;
pub mod shape;
pub mod snapshot;
pub mod survival;
pub mod text;
pub mod todo;
pub mod val;
pub mod view;
pub mod watch;
pub mod widgets;
pub mod window;
pub mod words;
