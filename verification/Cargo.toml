[package]
name = "delaunay_bvh"
version = "0.1.0"
edition = "2021"
publish = false
