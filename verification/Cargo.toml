[package]
name = "sudoku"
version = "0.1.0"
edition = "2021"
publish = false

[dependencies]
rand = "0.7"
scoped_threadpool = "0.1"
regex = "1"
term-painter = "*"
