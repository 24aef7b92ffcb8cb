//! The options of the store.

use crate::clock::{duration_as_secs, duration_from_secs, duration_secs};
use crate::data_storage::DataStorageOptions;
use crate::database::DataBaseOptions;
use crate::error::BitcaskError;
use std::time::Duration;
use vstd::prelude::*;

verus! {

/// The options of the store.
#[derive(Debug, Clone, Copy)]
pub struct BitcaskOptions {
    /// The size that no data file may grow beyond. Default: 128 MB.
    pub max_data_file_size: usize,
    /// The room that a new data file is given. Default: 1 MB.
    pub init_data_file_capacity: usize,
    /// The greatest length of a key. Default: 1 KB.
    pub max_key_size: usize,
    /// The greatest length of a value. Default: 100 KB.
    pub max_value_size: usize,
    /// How often the writable file is synced; zero for never. Default: one
    /// minute.
    pub sync_interval: Duration,
}

impl Default for BitcaskOptions {
    fn default() -> (options: Self)
        ensures
            options.max_data_file_size == 128 * 1024 * 1024,
            options.init_data_file_capacity == 1024 * 1024,
            options.max_key_size == 1024,
            options.max_value_size == 100 * 1024,
            duration_secs(options.sync_interval) == 60,
    {
        Self {
            max_data_file_size: 134217728,
            init_data_file_capacity: 1048576,
            max_key_size: 1024,
            max_value_size: 102400,
            sync_interval: duration_from_secs(60),
        }
    }
}

/// Which option is not positive.
pub enum InvalidOption {
    MaxDataFileSize,
    InitDataFileCapacity,
    MaxKeySize,
    MaxValueSize,
}

impl BitcaskOptions {
    pub fn max_data_file_size(self, size: usize) -> (options: BitcaskOptions)
        requires
            size > 0,
        ensures
            options == (BitcaskOptions { max_data_file_size: size, ..self }),
    {
        let mut options: BitcaskOptions = self;
        options.max_data_file_size = size;
        options
    }

    pub fn init_data_file_capacity(self, capacity: usize) -> (options: BitcaskOptions)
        requires
            capacity > 0,
        ensures
            options == (BitcaskOptions { init_data_file_capacity: capacity, ..self }),
    {
        let mut options: BitcaskOptions = self;
        options.init_data_file_capacity = capacity;
        options
    }

    pub fn max_key_size(self, size: usize) -> (options: BitcaskOptions)
        requires
            size > 0,
        ensures
            options == (BitcaskOptions { max_key_size: size, ..self }),
    {
        let mut options: BitcaskOptions = self;
        options.max_key_size = size;
        options
    }

    pub fn max_value_size(self, size: usize) -> (options: BitcaskOptions)
        requires
            size > 0,
        ensures
            options == (BitcaskOptions { max_value_size: size, ..self }),
    {
        let mut options: BitcaskOptions = self;
        options.max_value_size = size;
        options
    }

    pub fn sync_interval(self, interval: Duration) -> (options: BitcaskOptions)
        ensures
            options == (BitcaskOptions { sync_interval: interval, ..self }),
    {
        let mut options: BitcaskOptions = self;
        options.sync_interval = interval;
        options
    }

    /// The first option, in the order of the fields, that is not positive.
    pub open spec fn invalid_option(&self) -> Option<InvalidOption> {
        if self.max_data_file_size == 0 {
            Some(InvalidOption::MaxDataFileSize)
        } else if self.init_data_file_capacity == 0 {
            Some(InvalidOption::InitDataFileCapacity)
        } else if self.max_key_size == 0 {
            Some(InvalidOption::MaxKeySize)
        } else if self.max_value_size == 0 {
            Some(InvalidOption::MaxValueSize)
        } else {
            None
        }
    }

    /// The error for the first option that is not positive, if there is one.
    pub fn validate(&self) -> (error: Option<BitcaskError>)
        ensures
            match self.invalid_option() {
                None => error.is_none(),
                Some(option) => error matches Some(BitcaskError::InvalidParameter(name, reason))
                    && name@ == option_name(option) && reason@ == "need a positive value"@,
            },
    {
        if self.max_data_file_size == 0 {
            return Some(
                BitcaskError::InvalidParameter(
                    "max_data_file_size".to_string(),
                    "need a positive value".to_string(),
                ),
            );
        }
        if self.init_data_file_capacity == 0 {
            return Some(
                BitcaskError::InvalidParameter(
                    "init_data_file_capacity".to_string(),
                    "need a positive value".to_string(),
                ),
            );
        }
        if self.max_key_size == 0 {
            return Some(
                BitcaskError::InvalidParameter(
                    "max_key_size".to_string(),
                    "need a positive value".to_string(),
                ),
            );
        }
        if self.max_value_size == 0 {
            return Some(
                BitcaskError::InvalidParameter(
                    "max_value_size".to_string(),
                    "need a positive value".to_string(),
                ),
            );
        }
        None
    }

    /// The options of the database under a store with these options.
    pub fn get_database_options(&self) -> (options: DataBaseOptions)
        ensures
            options.storage_options.max_data_file_size == self.max_data_file_size,
            options.storage_options.init_data_file_capacity == self.init_data_file_capacity,
            options.sync_interval_sec == duration_secs(self.sync_interval),
    {
        DataBaseOptions {
            storage_options: DataStorageOptions {
                max_data_file_size: self.max_data_file_size,
                init_data_file_capacity: self.init_data_file_capacity,
            },
            sync_interval_sec: duration_as_secs(&self.sync_interval),
        }
    }
}

/// The name under which an option is reported.
pub open spec fn option_name(option: InvalidOption) -> Seq<char> {
    match option {
        InvalidOption::MaxDataFileSize => "max_data_file_size"@,
        InvalidOption::InitDataFileCapacity => "init_data_file_capacity"@,
        InvalidOption::MaxKeySize => "max_key_size"@,
        InvalidOption::MaxValueSize => "max_value_size"@,
    }
}

} // verus!
