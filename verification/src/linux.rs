//! Kernel isolation on Linux: unprivileged user and network namespaces, a
//! read-only view of the file system, Landlock and seccomp.
pub mod descriptors;
pub mod holder;
pub mod landlock;
pub mod listeners;
pub mod mounts;
pub mod network;
pub mod process;
pub mod seccomp;
