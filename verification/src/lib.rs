//! The decisions of a signed-distance-field sphere tracer, verified.
//!
//! A scene is a list of meshes; a mesh is a tree of spheres and triangles with
//! a material. The library reads triangle meshes from text, arranges faces
//! into triangles, picks the nearest surface among sampled distances, drives
//! the march of a ray from sample to sample, and makes the choices of the
//! triangle distance and of the lighting model. Numbers are binary32 values
//! held as bit patterns ([`scalar::Scalar`]), which the library compares but
//! does not compute with: the arithmetic of the distance field and of the
//! shading formulas is left to the caller.

pub mod scalar;
pub mod nearest;
pub mod geometry;
pub mod triangle;
pub mod scene;
pub mod settings;
pub mod march;
pub mod shade;
pub mod mesh;
pub mod text;
pub mod number;
pub mod obj;
